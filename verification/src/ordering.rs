//! Stable ordering of rows by composite keys.

use crate::text;
use crate::text::is_before;
use vstd::prelude::*;

verus! {

/// One component of a sort key, ascending or descending.
#[derive(Debug, Clone)]
pub enum KeyPart {
    Text(String),
    TextDown(String),
    Num(i64),
    NumDown(i64),
}

/// A key component as a mathematical value.
#[allow(inconsistent_fields)]
pub enum Part {
    Text(Seq<char>),
    TextDown(Seq<char>),
    Num(int),
    NumDown(int),
}

impl View for KeyPart {
    type V = Part;

    open spec fn view(&self) -> Part {
        match *self {
            KeyPart::Text(s) => Part::Text(s@),
            KeyPart::TextDown(s) => Part::TextDown(s@),
            KeyPart::Num(n) => Part::Num(n as int),
            KeyPart::NumDown(n) => Part::NumDown(n as int),
        }
    }
}

pub open spec fn key_view(key: Seq<KeyPart>) -> Seq<Part> {
    Seq::new(key.len(), |i: int| key[i]@)
}

pub open spec fn keys_view(keys: Seq<Vec<KeyPart>>) -> Seq<Seq<Part>> {
    Seq::new(keys.len(), |i: int| key_view(keys[i]@))
}

/// Component `a` orders its row before that of component `b`.
pub open spec fn part_before(a: Part, b: Part) -> bool {
    match (a, b) {
        (Part::Text(x), Part::Text(y)) => text::text_before(x, y),
        (Part::TextDown(x), Part::TextDown(y)) => text::text_before(y, x),
        (Part::Num(x), Part::Num(y)) => x < y,
        (Part::NumDown(x), Part::NumDown(y)) => y < x,
        _ => false,
    }
}

/// The components are of the same sort.
pub open spec fn same_sort(a: Part, b: Part) -> bool {
    match (a, b) {
        (Part::Text(_), Part::Text(_)) => true,
        (Part::TextDown(_), Part::TextDown(_)) => true,
        (Part::Num(_), Part::Num(_)) => true,
        (Part::NumDown(_), Part::NumDown(_)) => true,
        _ => false,
    }
}

/// Key `a` orders its row before that of key `b`: the first component that differs
/// decides.
pub open spec fn key_before(a: Seq<Part>, b: Seq<Part>) -> bool
    decreases a.len(),
{
    if a.len() == 0 || b.len() == 0 {
        false
    } else if part_before(a[0], b[0]) {
        true
    } else if part_before(b[0], a[0]) {
        false
    } else {
        key_before(a.drop_first(), b.drop_first())
    }
}

/// The keys have the same components in the same places.
pub open spec fn same_shape(a: Seq<Part>, b: Seq<Part>) -> bool {
    a.len() == b.len() && forall|i: int| 0 <= i < a.len() ==> same_sort(#[trigger] a[i], b[i])
}

pub open spec fn uniform(keys: Seq<Seq<Part>>) -> bool {
    forall|i: int, j: int|
        0 <= i < keys.len() && 0 <= j < keys.len() ==> same_shape(#[trigger] keys[i], #[trigger] keys[j])
}

proof fn lemma_part_order(a: Part, b: Part, c: Part)
    requires
        same_sort(a, b),
        same_sort(b, c),
    ensures
        !(part_before(a, b) && part_before(b, a)),
        !part_before(a, b) && !part_before(b, a) ==> a == b,
        part_before(a, b) && part_before(b, c) ==> part_before(a, c),
{
    match (a, b, c) {
        (Part::Text(x), Part::Text(y), Part::Text(z)) => {
            text::lemma_text_order(x, y);
            if text::text_before(x, y) && text::text_before(y, z) {
                text::lemma_text_order_transitive(x, y, z);
            }
        },
        (Part::TextDown(x), Part::TextDown(y), Part::TextDown(z)) => {
            text::lemma_text_order(x, y);
            if text::text_before(z, y) && text::text_before(y, x) {
                text::lemma_text_order_transitive(z, y, x);
            }
        },
        _ => {},
    }
}

/// The order of keys of one shape is strict and its complement is transitive.
pub proof fn lemma_key_order(a: Seq<Part>, b: Seq<Part>, c: Seq<Part>)
    requires
        same_shape(a, b),
        same_shape(b, c),
    ensures
        !(key_before(a, b) && key_before(b, a)),
        !key_before(b, a) && !key_before(c, b) ==> !key_before(c, a),
    decreases a.len(),
{
    if a.len() > 0 {
        lemma_part_order(a[0], b[0], c[0]);
        lemma_part_order(b[0], a[0], c[0]);
        lemma_part_order(a[0], c[0], b[0]);
        lemma_part_order(c[0], b[0], a[0]);
        lemma_part_order(c[0], a[0], b[0]);
        lemma_part_order(b[0], c[0], a[0]);
        let (x, y, z) = (a.drop_first(), b.drop_first(), c.drop_first());
        assert forall|i: int| 0 <= i < x.len() implies same_sort(#[trigger] x[i], y[i]) by {
            assert(same_sort(a[i + 1], b[i + 1]));
        }
        assert forall|i: int| 0 <= i < y.len() implies same_sort(#[trigger] y[i], z[i]) by {
            assert(same_sort(b[i + 1], c[i + 1]));
        }
        lemma_key_order(x, y, z);
    }
}

/// The order with row `x` put after every row that it does not come before.
pub open spec fn place(keys: Seq<Seq<Part>>, order: Seq<int>, x: int) -> Seq<int>
    decreases order.len(),
{
    if order.len() == 0 || !key_before(keys[x], keys[order.last()]) {
        order.push(x)
    } else {
        place(keys, order.drop_last(), x).push(order.last())
    }
}

/// The order of the first `k` rows: by key, and rows with equal keys as they stand.
pub open spec fn sorted(keys: Seq<Seq<Part>>, k: nat) -> Seq<int>
    decreases k,
{
    if k == 0 {
        Seq::empty()
    } else {
        place(keys, sorted(keys, (k - 1) as nat), k - 1)
    }
}

/// The order of all rows.
pub open spec fn sort_order(keys: Seq<Seq<Part>>) -> Seq<int> {
    sorted(keys, keys.len())
}

/// `a` may stand before `b` in the order: it does not come after it by its key, and at
/// equal keys it is the earlier row.
pub open spec fn in_order(keys: Seq<Seq<Part>>, a: int, b: int) -> bool {
    !key_before(keys[b], keys[a]) && (!key_before(keys[a], keys[b]) ==> a < b)
}

spec fn ordered(keys: Seq<Seq<Part>>, order: Seq<int>) -> bool {
    forall|i: int, j: int| 0 <= i < j < order.len() ==> in_order(keys, #[trigger] order[i], #[trigger] order[j])
}

spec fn names(order: Seq<int>, k: int) -> bool {
    &&& forall|i: int| 0 <= i < order.len() ==> 0 <= #[trigger] order[i] < k
    &&& forall|y: int| 0 <= y < k ==> order.contains(y)
}

proof fn lemma_place(keys: Seq<Seq<Part>>, order: Seq<int>, x: int)
    requires
        uniform(keys),
        0 <= x < keys.len(),
        forall|i: int| 0 <= i < order.len() ==> 0 <= #[trigger] order[i] < x,
        ordered(keys, order),
    ensures
        place(keys, order, x).len() == order.len() + 1,
        ordered(keys, place(keys, order, x)),
        forall|i: int|
            0 <= i < place(keys, order, x).len() ==> 0 <= #[trigger] place(keys, order, x)[i] <= x,
        forall|y: int| #[trigger] order.contains(y) ==> place(keys, order, x).contains(y),
        place(keys, order, x).contains(x),
    decreases order.len(),
{
    let r = place(keys, order, x);
    if order.len() == 0 || !key_before(keys[x], keys[order.last()]) {
        assert(r[order.len() as int] == x);
        assert forall|y: int| #[trigger] order.contains(y) implies r.contains(y) by {
            let k = choose|k: int| 0 <= k < order.len() && order[k] == y;
            assert(r[k] == y);
        }
        assert forall|i: int, j: int| 0 <= i < j < r.len() implies in_order(
            keys,
            #[trigger] r[i],
            #[trigger] r[j],
        ) by {
            if j == order.len() {
                let last = order.last();
                assert(order[i] == r[i]);
                assert(order[order.len() - 1] == last);
                if i < order.len() - 1 {
                    assert(in_order(keys, order[i], order[order.len() - 1]));
                    lemma_key_order(keys[r[i]], keys[last], keys[x]);
                }
            } else {
                assert(in_order(keys, order[i], order[j]));
            }
        }
    } else {
        let init = order.drop_last();
        let last = order.last();
        assert(order[order.len() - 1] == last);
        assert forall|i: int| 0 <= i < init.len() implies 0 <= #[trigger] init[i] < x by {
            assert(order[i] == init[i]);
        }
        assert forall|i: int, j: int| 0 <= i < j < init.len() implies in_order(
            keys,
            #[trigger] init[i],
            #[trigger] init[j],
        ) by {
            assert(in_order(keys, order[i], order[j]));
        }
        lemma_place(keys, init, x);
        let q = place(keys, init, x);
        assert(r == q.push(last));
        assert forall|y: int| #[trigger] order.contains(y) implies r.contains(y) by {
            let k = choose|k: int| 0 <= k < order.len() && order[k] == y;
            if k < init.len() {
                assert(init[k] == y);
                assert(init.contains(y));
                let m = choose|m: int| 0 <= m < q.len() && q[m] == y;
                assert(r[m] == y);
            } else {
                assert(r[q.len() as int] == y);
            }
        }
        assert(r.contains(x)) by {
            let m = choose|m: int| 0 <= m < q.len() && q[m] == x;
            assert(r[m] == x);
        }
        assert forall|i: int, j: int| 0 <= i < j < r.len() implies in_order(
            keys,
            #[trigger] r[i],
            #[trigger] r[j],
        ) by {
            if j < q.len() {
                assert(in_order(keys, q[i], q[j]));
            } else {
                lemma_place_member(keys, init, x, i);
                lemma_key_order(keys[x], keys[last], keys[x]);
                if q[i] != x {
                    let k = choose|k: int| 0 <= k < init.len() && init[k] == q[i];
                    assert(in_order(keys, order[k], order[order.len() - 1]));
                }
            }
        }
    }
}

proof fn lemma_place_member(keys: Seq<Seq<Part>>, order: Seq<int>, x: int, i: int)
    requires
        0 <= i < place(keys, order, x).len(),
    ensures
        place(keys, order, x)[i] == x || order.contains(place(keys, order, x)[i]),
    decreases order.len(),
{
    let r = place(keys, order, x);
    if order.len() == 0 || !key_before(keys[x], keys[order.last()]) {
        if i < order.len() {
            assert(order[i] == r[i]);
        }
    } else {
        let q = place(keys, order.drop_last(), x);
        if i < q.len() {
            lemma_place_member(keys, order.drop_last(), x, i);
            if order.drop_last().contains(r[i]) {
                let k = choose|k: int|
                    0 <= k < order.drop_last().len() && order.drop_last()[k] == r[i];
                assert(order[k] == r[i]);
            }
        } else {
            assert(order[order.len() - 1] == r[i]);
        }
    }
}

proof fn lemma_sorted(keys: Seq<Seq<Part>>, k: nat)
    requires
        uniform(keys),
        k <= keys.len(),
    ensures
        sorted(keys, k).len() == k,
        ordered(keys, sorted(keys, k)),
        names(sorted(keys, k), k as int),
    decreases k,
{
    if k > 0 {
        lemma_sorted(keys, (k - 1) as nat);
        let before = sorted(keys, (k - 1) as nat);
        lemma_place(keys, before, k - 1);
        assert forall|y: int| 0 <= y < k implies sorted(keys, k).contains(y) by {
            if y < k - 1 {
                assert(before.contains(y));
            }
        }
    }
}

/// The order names every row once, by key, and rows with equal keys as they stand.
pub proof fn lemma_sort_order(keys: Seq<Seq<Part>>)
    requires
        uniform(keys),
    ensures
        sort_order(keys).len() == keys.len(),
        forall|i: int|
            0 <= i < keys.len() ==> 0 <= #[trigger] sort_order(keys)[i] < keys.len(),
        forall|y: int| 0 <= y < keys.len() ==> sort_order(keys).contains(y),
        forall|i: int, j: int|
            0 <= i < j < keys.len() ==> in_order(
                keys,
                #[trigger] sort_order(keys)[i],
                #[trigger] sort_order(keys)[j],
            ),
        sort_order(keys).no_duplicates(),
{
    lemma_sorted(keys, keys.len());
    let order = sort_order(keys);
    assert forall|i: int, j: int| 0 <= i < order.len() && 0 <= j < order.len() && i
        != j implies order[i] != order[j] by {
        if i < j {
            assert(in_order(keys, order[i], order[j]));
        } else {
            assert(in_order(keys, order[j], order[i]));
        }
    }
}

proof fn lemma_sorted_range(keys: Seq<Seq<Part>>, k: nat)
    ensures
        sorted(keys, k).len() == k,
        forall|i: int| 0 <= i < k ==> 0 <= #[trigger] sorted(keys, k)[i] < k,
    decreases k,
{
    if k > 0 {
        let before = sorted(keys, (k - 1) as nat);
        lemma_sorted_range(keys, (k - 1) as nat);
        lemma_place_len(keys, before, k - 1);
        assert forall|i: int| 0 <= i < k implies 0 <= #[trigger] sorted(keys, k)[i] < k by {
            lemma_place_member(keys, before, k - 1, i);
            if before.contains(sorted(keys, k)[i]) {
                let m = choose|m: int| 0 <= m < before.len() && before[m] == sorted(keys, k)[i];
                assert(0 <= before[m] < k - 1);
            }
        }
    }
}

proof fn lemma_place_len(keys: Seq<Seq<Part>>, order: Seq<int>, x: int)
    ensures
        place(keys, order, x).len() == order.len() + 1,
    decreases order.len(),
{
    if order.len() > 0 && key_before(keys[x], keys[order.last()]) {
        lemma_place_len(keys, order.drop_last(), x);
    }
}

/// The order names rows: as many as there are keys, each within range.
pub proof fn lemma_sort_order_range(keys: Seq<Seq<Part>>)
    ensures
        sort_order(keys).len() == keys.len(),
        forall|i: int|
            0 <= i < keys.len() ==> 0 <= #[trigger] sort_order(keys)[i] < keys.len(),
{
    lemma_sorted_range(keys, keys.len());
}

fn is_part_before(a: &KeyPart, b: &KeyPart) -> (r: bool)
    ensures
        r == part_before(a@, b@),
{
    match (a, b) {
        (KeyPart::Text(x), KeyPart::Text(y)) => is_before(x.as_str(), y.as_str()),
        (KeyPart::TextDown(x), KeyPart::TextDown(y)) => is_before(y.as_str(), x.as_str()),
        (KeyPart::Num(x), KeyPart::Num(y)) => *x < *y,
        (KeyPart::NumDown(x), KeyPart::NumDown(y)) => *y < *x,
        _ => false,
    }
}

pub fn is_key_before(a: &Vec<KeyPart>, b: &Vec<KeyPart>) -> (r: bool)
    ensures
        r == key_before(key_view(a@), key_view(b@)),
{
    let ghost x = key_view(a@);
    let ghost y = key_view(b@);
    let mut i: usize = 0;
    proof {
        assert(x.skip(0) =~= x);
        assert(y.skip(0) =~= y);
    }
    while i < a.len() && i < b.len()
        invariant
            i <= a.len(),
            i <= b.len(),
            x == key_view(a@),
            y == key_view(b@),
            key_before(x, y) == key_before(x.skip(i as int), y.skip(i as int)),
        decreases a.len() - i,
    {
        proof {
            assert(x.skip(i as int)[0] == a@[i as int]@);
            assert(y.skip(i as int)[0] == b@[i as int]@);
            assert(x.skip(i as int).drop_first() =~= x.skip(i + 1));
            assert(y.skip(i as int).drop_first() =~= y.skip(i + 1));
        }
        if is_part_before(&a[i], &b[i]) {
            return true;
        }
        if is_part_before(&b[i], &a[i]) {
            return false;
        }
        i = i + 1;
    }
    false
}

pub open spec fn indices(v: Seq<usize>) -> Seq<int> {
    Seq::new(v.len(), |i: int| v[i] as int)
}

proof fn lemma_place_split(keys: Seq<Seq<Part>>, order: Seq<int>, x: int, p: int)
    requires
        0 <= p <= order.len(),
        p == 0 || !key_before(keys[x], keys[order[p - 1]]),
        forall|i: int| p <= i < order.len() ==> key_before(keys[x], keys[#[trigger] order[i]]),
    ensures
        place(keys, order, x) == order.insert(p, x),
    decreases order.len(),
{
    if p == order.len() {
        assert(order.insert(p, x) =~= order.push(x));
    } else {
        assert(key_before(keys[x], keys[order[order.len() - 1]]));
        let init = order.drop_last();
        assert(p > 0 ==> init[p - 1] == order[p - 1]);
        assert forall|i: int| p <= i < init.len() implies key_before(
            keys[x],
            keys[#[trigger] init[i]],
        ) by {
            assert(init[i] == order[i]);
        }
        lemma_place_split(keys, init, x, p);
        assert(init.insert(p, x).push(order.last()) =~= order.insert(p, x));
    }
}

/// The order of the rows with these keys.
pub fn sort_rows(keys: &Vec<Vec<KeyPart>>) -> (order: Vec<usize>)
    ensures
        indices(order@) == sort_order(keys_view(keys@)),
        order@.len() == keys@.len(),
        forall|i: int| 0 <= i < order@.len() ==> (#[trigger] order@[i]) < keys@.len(),
{
    let ghost ks = keys_view(keys@);
    let mut order: Vec<usize> = Vec::new();
    let mut k: usize = 0;
    proof {
        assert(indices(order@) =~= Seq::empty());
    }
    while k < keys.len()
        invariant
            k <= keys.len(),
            ks == keys_view(keys@),
            indices(order@) == sorted(ks, k as nat),
        decreases keys.len() - k,
    {
        proof {
            lemma_sorted_range(ks, k as nat);
        }
        let ghost before = indices(order@);
        proof {
            assert(order@.len() == before.len());
            assert forall|i: int| 0 <= i < order@.len() implies order@[i] < k by {
                assert(before[i] == order@[i]);
            }
        }
        let mut p: usize = order.len();
        while p > 0 && is_key_before(&keys[k], &keys[order[p - 1]])
            invariant
                p <= order.len(),
                k < keys.len(),
                ks == keys_view(keys@),
                before == indices(order@),
                forall|i: int| 0 <= i < order@.len() ==> order@[i] < k,
                forall|i: int|
                    p <= i < before.len() ==> key_before(
                        ks[k as int],
                        ks[#[trigger] before[i]],
                    ),
            decreases p,
        {
            p = p - 1;
        }
        proof {
            if p > 0 {
                assert(before[p - 1] == order@[p - 1]);
            }
            lemma_place_split(ks, before, k as int, p as int);
        }
        order.insert(p, k);
        proof {
            assert(indices(order@) =~= before.insert(p as int, k as int));
        }
        k = k + 1;
    }
    proof {
        lemma_sort_order_range(ks);
        assert forall|i: int| 0 <= i < order@.len() implies (#[trigger] order@[i])
            < keys@.len() by {
            assert(indices(order@)[i] == order@[i]);
        }
    }
    order
}

// ---------------------------------------------------------------------------
// Laws
// ---------------------------------------------------------------------------

/// The first component in which two keys differ decides which row comes first.
pub proof fn lemma_first_difference(a: Seq<Part>, b: Seq<Part>, k: int)
    requires
        same_shape(a, b),
        0 <= k < a.len(),
        forall|i: int| 0 <= i < k ==> #[trigger] a[i] == b[i],
        part_before(a[k], b[k]),
    ensures
        key_before(a, b),
        !key_before(b, a),
    decreases a.len(),
{
    lemma_key_order(a, b, a);
    if k > 0 {
        let x = a.drop_first();
        let y = b.drop_first();
        assert forall|i: int| 0 <= i < x.len() implies same_sort(#[trigger] x[i], y[i]) by {
            assert(same_sort(a[i + 1], b[i + 1]));
        }
        assert forall|i: int| 0 <= i < k - 1 implies #[trigger] x[i] == y[i] by {
            assert(a[i + 1] == b[i + 1]);
        }
        lemma_first_difference(x, y, k - 1);
        assert(a[0] == b[0]);
        lemma_part_order(a[0], a[0], a[0]);
    }
}

/// Numbers and texts order their rows upwards, or downwards where the component says so.
pub proof fn lemma_directions(x: int, y: int, s: Seq<char>, t: Seq<char>)
    ensures
        part_before(Part::Num(x), Part::Num(y)) == (x < y),
        part_before(Part::NumDown(x), Part::NumDown(y)) == (x > y),
        part_before(Part::Text(s), Part::Text(t)) == text::text_before(s, t),
        part_before(Part::TextDown(s), Part::TextDown(t)) == text::text_before(t, s),
{
}

} // verus!
