//! Sorting by composite keys.
//!
//! A key is a list of numbers and texts, compared part by part. Rows with equal
//! keys keep the order they came in, so the order of a list is always unique.

use crate::rows;
use crate::text;
use vstd::prelude::*;
use vstd::string::*;

verus! {

/// One part of a key.
#[derive(Clone, Debug)]
pub enum Part {
    Number(i128),
    Text(String),
}

/// What a part of a key stands for.
pub enum PartValue {
    Number(int),
    Text(Seq<char>),
}

impl View for Part {
    type V = PartValue;

    open spec fn view(&self) -> PartValue {
        match *self {
            Part::Number(n) => PartValue::Number(n as int),
            Part::Text(t) => PartValue::Text(t@),
        }
    }
}

/// What a key stands for.
pub open spec fn key_value(k: Seq<Part>) -> Seq<PartValue> {
    k.map_values(|p: Part| p@)
}

/// What a list of keys stands for.
pub open spec fn key_values(k: Seq<Vec<Part>>) -> Seq<Seq<PartValue>> {
    k.map_values(|v: Vec<Part>| key_value(v@))
}

/// Order of parts: numbers by value, texts by code points, numbers before texts.
pub open spec fn part_before(a: PartValue, b: PartValue) -> bool {
    match (a, b) {
        (PartValue::Number(x), PartValue::Number(y)) => x < y,
        (PartValue::Number(_), PartValue::Text(_)) => true,
        (PartValue::Text(_), PartValue::Number(_)) => false,
        (PartValue::Text(x), PartValue::Text(y)) => text::before(x, y),
    }
}

/// Order of keys: by the first part that differs; a key comes before any key that
/// it is the start of.
pub open spec fn key_before(a: Seq<PartValue>, b: Seq<PartValue>) -> bool
    decreases a.len(),
{
    if b.len() == 0 {
        false
    } else if a.len() == 0 {
        true
    } else if a[0] != b[0] {
        part_before(a[0], b[0])
    } else {
        key_before(a.drop_first(), b.drop_first())
    }
}

proof fn lemma_part_order(a: PartValue, b: PartValue, c: PartValue)
    ensures
        !part_before(a, a),
        part_before(a, b) && part_before(b, c) ==> part_before(a, c),
        a == b || part_before(a, b) || part_before(b, a),
        !(part_before(a, b) && part_before(b, a)),
{
    let x = match a {
        PartValue::Text(t) => t,
        _ => Seq::empty(),
    };
    let y = match b {
        PartValue::Text(t) => t,
        _ => Seq::empty(),
    };
    let z = match c {
        PartValue::Text(t) => t,
        _ => Seq::empty(),
    };
    text::law_before_is_a_strict_total_order(x, y, z);
}

/// The order of keys is irreflexive, transitive and total.
pub proof fn law_key_order_is_strict_and_total(
    a: Seq<PartValue>,
    b: Seq<PartValue>,
    c: Seq<PartValue>,
)
    ensures
        !key_before(a, a),
        key_before(a, b) && key_before(b, c) ==> key_before(a, c),
        a == b || key_before(a, b) || key_before(b, a),
        !(key_before(a, b) && key_before(b, a)),
    decreases a.len(),
{
    if a.len() > 0 {
        if b.len() > 0 && c.len() > 0 {
            lemma_part_order(a[0], b[0], c[0]);
        }
        if b.len() > 0 {
            lemma_part_order(a[0], b[0], b[0]);
        }
        law_key_order_is_strict_and_total(a.drop_first(), b.drop_first(), c.drop_first());
        if b.len() > 0 && a[0] == b[0] && a.drop_first() == b.drop_first() {
            assert(a =~= seq![a[0]] + a.drop_first());
            assert(b =~= seq![b[0]] + b.drop_first());
        }
    } else if b.len() == 0 {
        assert(a =~= b);
    }
}

/// Whether row `a` comes before row `b`: by key, then by position.
pub open spec fn precedes(keys: Seq<Seq<PartValue>>, a: int, b: int) -> bool {
    key_before(keys[a], keys[b]) || (keys[a] == keys[b] && a < b)
}

/// Whether a list of positions is the order of the first `n` rows with these keys.
pub open spec fn orders_first(keys: Seq<Seq<PartValue>>, r: Seq<int>, n: int) -> bool {
    &&& r.len() == n
    &&& forall|i: int| 0 <= i < n ==> 0 <= #[trigger] r[i] < n
    &&& forall|x: int| 0 <= x < n ==> #[trigger] r.contains(x)
    &&& forall|i: int, j: int| #![trigger r[i], r[j]]
        0 <= i < j < n ==> precedes(keys, r[i], r[j])
}

/// Whether a list of positions is the order of the rows with these keys.
pub open spec fn is_order(keys: Seq<Seq<PartValue>>, r: Seq<int>) -> bool {
    orders_first(keys, r, keys.len() as int)
}

/// The order of the rows with these keys.
pub open spec fn order_of(keys: Seq<Seq<PartValue>>) -> Seq<int> {
    choose|r: Seq<int>| is_order(keys, r)
}

proof fn lemma_insert(keys: Seq<Seq<PartValue>>, r: Seq<int>, x: int, p: int)
    requires
        0 <= x < keys.len(),
        orders_first(keys, r, x),
        0 <= p <= x,
        forall|i: int| p <= i < x ==> key_before(keys[x], keys[#[trigger] r[i]]),
        p > 0 ==> !key_before(keys[x], keys[r[p - 1]]),
    ensures
        orders_first(keys, r.insert(p, x), x + 1),
{
    let after = r.insert(p, x);
    assert forall|i: int| 0 <= i < p implies precedes(keys, #[trigger] r[i], x) by {
        let l = r[p - 1];
        law_key_order_is_strict_and_total(keys[l], keys[x], keys[l]);
        if i < p - 1 {
            assert(precedes(keys, r[i], r[p - 1]));
            law_key_order_is_strict_and_total(keys[r[i]], keys[l], keys[x]);
        }
    }
    assert forall|i: int, j: int| #![trigger after[i], after[j]]
        0 <= i < j < x + 1 implies precedes(keys, after[i], after[j]) by {
        if i < p && j < p {
            assert(after[i] == r[i] && after[j] == r[j]);
        } else if i < p && j == p {
            assert(after[i] == r[i]);
        } else if i < p && j > p {
            assert(after[i] == r[i] && after[j] == r[j - 1]);
        } else if i == p {
            assert(after[j] == r[j - 1]);
        } else {
            assert(after[i] == r[i - 1] && after[j] == r[j - 1]);
        }
    }
    assert forall|y: int| 0 <= y < x + 1 implies #[trigger] after.contains(y) by {
        if y == x {
            assert(after[p] == x);
        } else {
            assert(r.contains(y));
            let q = choose|q: int| 0 <= q < r.len() && r[q] == y;
            if q < p {
                assert(after[q] == y);
            } else {
                assert(after[q + 1] == y);
            }
        }
    }
    assert forall|i: int| 0 <= i < x + 1 implies 0 <= #[trigger] after[i] < x + 1 by {
        if i < p {
            assert(after[i] == r[i]);
        } else if i > p {
            assert(after[i] == r[i - 1]);
        }
    }
}

spec fn place(keys: Seq<Seq<PartValue>>, r: Seq<int>, x: int, p: int) -> int
    decreases p,
{
    if p > 0 && key_before(keys[x], keys[r[p - 1]]) {
        place(keys, r, x, p - 1)
    } else {
        p
    }
}

proof fn lemma_place(keys: Seq<Seq<PartValue>>, r: Seq<int>, x: int, p: int)
    requires
        0 <= p <= r.len(),
        forall|i: int| p <= i < r.len() ==> key_before(keys[x], keys[#[trigger] r[i]]),
    ensures
        ({
            let q = place(keys, r, x, p);
            &&& 0 <= q <= r.len()
            &&& forall|i: int| q <= i < r.len() ==> key_before(keys[x], keys[#[trigger] r[i]])
            &&& q > 0 ==> !key_before(keys[x], keys[r[q - 1]])
        }),
    decreases p,
{
    if p > 0 && key_before(keys[x], keys[r[p - 1]]) {
        lemma_place(keys, r, x, p - 1);
    }
}

proof fn lemma_order_of_first(keys: Seq<Seq<PartValue>>, n: int) -> (r: Seq<int>)
    requires
        0 <= n <= keys.len(),
    ensures
        orders_first(keys, r, n),
    decreases n,
{
    if n == 0 {
        Seq::empty()
    } else {
        let r = lemma_order_of_first(keys, n - 1);
        lemma_place(keys, r, n - 1, n - 1);
        let p = place(keys, r, n - 1, n - 1);
        lemma_insert(keys, r, n - 1, p);
        r.insert(p, n - 1)
    }
}

/// Any list of rows has an order, and only one.
pub proof fn law_order_is_unique(keys: Seq<Seq<PartValue>>, r: Seq<int>)
    ensures
        is_order(keys, order_of(keys)),
        is_order(keys, r) ==> r == order_of(keys),
{
    let w = lemma_order_of_first(keys, keys.len() as int);
    assert(is_order(keys, w));
    if is_order(keys, r) {
        lemma_orders_agree(keys, r, order_of(keys), r.len() as int);
        assert(r =~= order_of(keys));
    }
}

proof fn lemma_orders_agree(keys: Seq<Seq<PartValue>>, a: Seq<int>, b: Seq<int>, n: int)
    requires
        is_order(keys, a),
        is_order(keys, b),
        0 <= n <= a.len(),
    ensures
        forall|i: int| 0 <= i < n ==> a[i] == b[i],
    decreases n,
{
    if n > 0 {
        lemma_orders_agree(keys, a, b, n - 1);
        let i = n - 1;
        if a[i] != b[i] {
            assert(a.contains(b[i]));
            assert(b.contains(a[i]));
            let p = choose|p: int| 0 <= p < a.len() && a[p] == b[i];
            let q = choose|q: int| 0 <= q < b.len() && b[q] == a[i];
            law_key_order_is_strict_and_total(keys[a[i]], keys[b[i]], keys[a[i]]);
            law_key_order_is_strict_and_total(keys[b[i]], keys[a[i]], keys[b[i]]);
            if p < i {
                assert(b[p] == b[i]);
                assert(precedes(keys, b[p], b[i]));
            } else if q < i {
                assert(a[q] == a[i]);
                assert(precedes(keys, a[q], a[i]));
            } else {
                assert(precedes(keys, a[i], a[p]));
                assert(precedes(keys, b[i], b[q]));
            }
        }
    }
}

/// Whether a list is in strictly ascending order of a key.
pub open spec fn ascends<A>(s: Seq<A>, key: spec_fn(A) -> Seq<PartValue>) -> bool {
    forall|i: int, j: int| #![trigger s[i], s[j]]
        0 <= i < j < s.len() ==> key_before(key(s[i]), key(s[j]))
}

/// Two lists that ascend by the same key and hold the same values are the same.
pub proof fn law_ascending_list_is_unique<A>(
    a: Seq<A>,
    b: Seq<A>,
    key: spec_fn(A) -> Seq<PartValue>,
)
    requires
        ascends(a, key),
        ascends(b, key),
        forall|x: A| a.contains(x) <==> b.contains(x),
    ensures
        a == b,
{
    let n = if a.len() <= b.len() { a.len() } else { b.len() };
    lemma_ascending_agree(a, b, key, n as int);
    if a.len() > n {
        assert(a.contains(a[n as int]));
        let q = choose|q: int| 0 <= q < b.len() && b[q] == a[n as int];
        assert(key_before(key(a[q]), key(a[n as int])));
        law_key_order_is_strict_and_total(key(a[q]), key(a[q]), key(a[q]));
    }
    if b.len() > n {
        assert(b.contains(b[n as int]));
        let q = choose|q: int| 0 <= q < a.len() && a[q] == b[n as int];
        assert(key_before(key(b[q]), key(b[n as int])));
        law_key_order_is_strict_and_total(key(b[q]), key(b[q]), key(b[q]));
    }
    assert(a =~= b);
}

proof fn lemma_ascending_agree<A>(
    a: Seq<A>,
    b: Seq<A>,
    key: spec_fn(A) -> Seq<PartValue>,
    n: int,
)
    requires
        ascends(a, key),
        ascends(b, key),
        forall|x: A| a.contains(x) <==> b.contains(x),
        0 <= n <= a.len(),
        n <= b.len(),
    ensures
        forall|i: int| 0 <= i < n ==> a[i] == b[i],
    decreases n,
{
    if n > 0 {
        lemma_ascending_agree(a, b, key, n - 1);
        let i = n - 1;
        if a[i] != b[i] {
            assert(b.contains(b[i]));
            assert(a.contains(a[i]));
            let p = choose|p: int| 0 <= p < a.len() && a[p] == b[i];
            let q = choose|q: int| 0 <= q < b.len() && b[q] == a[i];
            law_key_order_is_strict_and_total(key(a[i]), key(b[i]), key(a[i]));
            law_key_order_is_strict_and_total(key(b[i]), key(a[i]), key(b[i]));
            if p < i {
                assert(b[p] == b[i]);
                assert(key_before(key(b[p]), key(b[i])));
            } else if q < i {
                assert(a[q] == a[i]);
                assert(key_before(key(a[q]), key(a[i])));
            } else {
                assert(key_before(key(a[i]), key(a[p])));
                assert(key_before(key(b[i]), key(b[q])));
            }
        }
    }
}

fn part_lt(a: &Part, b: &Part) -> (r: bool)
    ensures
        r == part_before(a@, b@),
{
    match a {
        Part::Number(x) => match b {
            Part::Number(y) => *x < *y,
            Part::Text(_) => true,
        },
        Part::Text(x) => match b {
            Part::Number(_) => false,
            Part::Text(y) => text::comes_before(x.as_str(), y.as_str()),
        },
    }
}

proof fn lemma_common_start(a: Seq<PartValue>, b: Seq<PartValue>, k: int)
    requires
        0 <= k <= a.len(),
        k <= b.len(),
        forall|i: int| 0 <= i < k ==> a[i] == b[i],
    ensures
        key_before(a, b) == key_before(a.skip(k), b.skip(k)),
    decreases k,
{
    if k == 0 {
        assert(a.skip(0) =~= a);
        assert(b.skip(0) =~= b);
    } else {
        lemma_common_start(a.drop_first(), b.drop_first(), k - 1);
        assert(a.drop_first().skip(k - 1) =~= a.skip(k));
        assert(b.drop_first().skip(k - 1) =~= b.skip(k));
    }
}

/// Whether one key comes strictly before another.
pub fn key_lt(a: &Vec<Part>, b: &Vec<Part>) -> (r: bool)
    ensures
        r == key_before(key_value(a@), key_value(b@)),
{
    let ghost x = key_value(a@);
    let ghost y = key_value(b@);
    let mut i: usize = 0;
    while i < a.len() && i < b.len()
        invariant
            i <= a.len(),
            i <= b.len(),
            x == key_value(a@),
            y == key_value(b@),
            forall|k: int| 0 <= k < i ==> x[k] == y[k],
        decreases a.len() - i,
    {
        proof {
            lemma_part_order(x[i as int], y[i as int], y[i as int]);
            lemma_common_start(x, y, i as int);
            assert(x.skip(i as int)[0] == x[i as int]);
            assert(y.skip(i as int)[0] == y[i as int]);
        }
        if part_lt(&a[i], &b[i]) {
            return true;
        }
        if part_lt(&b[i], &a[i]) {
            return false;
        }
        i += 1;
    }
    proof {
        lemma_common_start(x, y, i as int);
    }
    i < b.len()
}

/// Positions as integers.
pub open spec fn positions(r: Seq<usize>) -> Seq<int> {
    r.map_values(|i: usize| i as int)
}

/// The order of the rows with these keys.
pub fn sorted_order(keys: &Vec<Vec<Part>>) -> (r: Vec<usize>)
    ensures
        positions(r@) == order_of(key_values(keys@)),
        r@.len() == keys@.len(),
        forall|i: int| 0 <= i < r@.len() ==> #[trigger] r@[i] < keys@.len(),
{
    let ghost kv = key_values(keys@);
    let mut out: Vec<usize> = Vec::new();
    let mut x: usize = 0;
    while x < keys.len()
        invariant
            x <= keys.len(),
            kv == key_values(keys@),
            out@.len() == x,
            orders_first(kv, positions(out@), x as int),
        decreases keys.len() - x,
    {
        let ghost before = positions(out@);
        let mut p: usize = out.len();
        while p > 0 && key_lt(&keys[x], &keys[out[p - 1]])
            invariant
                p <= out@.len(),
                x < keys.len(),
                kv == key_values(keys@),
                out@.len() == x,
                before == positions(out@),
                orders_first(kv, before, x as int),
                forall|i: int| 0 <= i < x ==> #[trigger] out@[i] == before[i],
                forall|i: int|
                    p <= i < x ==> key_before(kv[x as int], kv[#[trigger] before[i]]),
            decreases p,
        {
            p -= 1;
            assert(before[p as int] == out@[p as int]);
        }
        proof {
            if p > 0 {
                assert(before[p - 1] == out@[p - 1]);
            }
            lemma_insert(kv, before, x as int, p as int);
        }
        out.insert(p, x);
        assert(positions(out@) =~= before.insert(p as int, x as int));
        x += 1;
    }
    proof {
        law_order_is_unique(kv, positions(out@));
        assert forall|i: int| 0 <= i < out@.len() implies #[trigger] out@[i] < keys@.len() by {
            assert(positions(out@)[i] == out@[i]);
        }
    }
    out
}

// ---- ordering by two numbers ----------------------------------------------------------------

/// A key of two numbers.
pub open spec fn pair_key(a: int, b: int) -> Seq<PartValue> {
    seq![PartValue::Number(a), PartValue::Number(b)]
}

/// Keys of two numbers each.
pub open spec fn pair_keys(pairs: Seq<(i128, i128)>) -> Seq<Seq<PartValue>> {
    pairs.map_values(|p: (i128, i128)| pair_key(p.0 as int, p.1 as int))
}

/// A key of two numbers comes before another by the first number, then by the second.
pub proof fn lemma_pair_key_before(a: int, b: int, c: int, d: int)
    ensures
        key_before(pair_key(a, b), pair_key(c, d)) == (a < c || (a == c && b < d)),
        pair_key(a, b) == pair_key(c, d) ==> a == c && b == d,
{
    reveal_with_fuel(key_before, 3);
    let x = pair_key(a, b);
    let y = pair_key(c, d);
    assert(x[0] == PartValue::Number(a) && x[1] == PartValue::Number(b));
    assert(y[0] == PartValue::Number(c) && y[1] == PartValue::Number(d));
    assert(x.drop_first()[0] == PartValue::Number(b));
    assert(y.drop_first()[0] == PartValue::Number(d));
}

/// The order of rows by two numbers each; equal ones keep their order.
pub fn order_by_pairs(pairs: &Vec<(i128, i128)>) -> (r: Vec<usize>)
    ensures
        positions(r@) == order_of(pair_keys(pairs@)),
        r@.len() == pairs@.len(),
        forall|i: int| 0 <= i < r@.len() ==> #[trigger] r@[i] < pairs@.len(),
{
    let mut keys: Vec<Vec<Part>> = Vec::new();
    let mut i: usize = 0;
    while i < pairs.len()
        invariant
            i <= pairs@.len(),
            keys@.len() == i,
            forall|k: int|
                0 <= k < i ==> key_value((#[trigger] keys@[k])@) == pair_key(
                    pairs@[k].0 as int,
                    pairs@[k].1 as int,
                ),
        decreases pairs.len() - i,
    {
        let (a, b) = pairs[i];
        let mut key: Vec<Part> = Vec::new();
        key.push(Part::Number(a));
        key.push(Part::Number(b));
        assert(key_value(key@) =~= pair_key(a as int, b as int));
        keys.push(key);
        i += 1;
    }
    assert(key_values(keys@) =~= pair_keys(pairs@));
    sorted_order(&keys)
}

// ---- listing some of the rows -------------------------------------------------------------

/// Positions, put into an order.
pub fn pick(at: &Vec<usize>, o: &Vec<usize>) -> (r: Vec<usize>)
    requires
        o@.len() == at@.len(),
        forall|k: int| 0 <= k < o@.len() ==> #[trigger] o@[k] < at@.len(),
    ensures
        positions(r@) == positions(o@).map_values(|k: int| positions(at@)[k]),
        forall|i: int| 0 <= i < r@.len() ==> at@.contains(#[trigger] r@[i]),
{
    let ghost sel = positions(at@);
    let mut out: Vec<usize> = Vec::new();
    let mut j: usize = 0;
    while j < o.len()
        invariant
            j <= o@.len(),
            o@.len() == at@.len(),
            sel == positions(at@),
            forall|k: int| 0 <= k < o@.len() ==> #[trigger] o@[k] < at@.len(),
            out@.len() == j,
            forall|k: int| 0 <= k < j ==> #[trigger] out@[k] == sel[o@[k] as int],
            forall|i: int| 0 <= i < out@.len() ==> at@.contains(#[trigger] out@[i]),
        decreases o.len() - j,
    {
        out.push(at[o[j]]);
        assert(at@.contains(at@[o@[j as int] as int]));
        j += 1;
    }
    assert(positions(out@) =~= positions(o@).map_values(|k: int| sel[k]));
    out
}

/// Of `n` rows those that are shown, by position, in the order of their keys.
pub open spec fn listed(
    n: int,
    shown: spec_fn(int) -> bool,
    key: spec_fn(int) -> Seq<PartValue>,
) -> Seq<int> {
    let at = rows::all_where(n, shown);
    order_of(at.map_values(key)).map_values(|k: int| at[k])
}

/// A listing holds the rows that are shown and no others, each once, by their keys.
pub proof fn law_listing_holds_what_is_shown(
    n: int,
    shown: spec_fn(int) -> bool,
    key: spec_fn(int) -> Seq<PartValue>,
)
    ensures
        listed(n, shown, key).len() == rows::count_where(n, shown),
        forall|i: int|
            0 <= i < listed(n, shown, key).len() ==> 0 <= #[trigger] listed(n, shown, key)[i] < n
                && shown(listed(n, shown, key)[i]),
        forall|x: int| 0 <= x < n && #[trigger] shown(x) ==> listed(n, shown, key).contains(x),
        forall|i: int, j: int|
            #![trigger listed(n, shown, key)[i], listed(n, shown, key)[j]]
            0 <= i < j < listed(n, shown, key).len() ==> listed(n, shown, key)[i] != listed(
                n,
                shown,
                key,
            )[j] && !key_before(key(listed(n, shown, key)[j]), key(listed(n, shown, key)[i])),
{
    let at = rows::all_where(n, shown);
    let keys = at.map_values(key);
    let o = order_of(keys);
    let l = listed(n, shown, key);
    rows::lemma_all_where(n, shown);
    law_order_is_unique(keys, o);
    assert forall|i: int| 0 <= i < l.len() implies 0 <= #[trigger] l[i] < n && shown(l[i]) by {
        assert(0 <= o[i] < at.len());
        assert(l[i] == at[o[i]]);
    }
    assert forall|x: int| 0 <= x < n && #[trigger] shown(x) implies l.contains(x) by {
        assert(at.contains(x));
        let m = choose|m: int| 0 <= m < at.len() && at[m] == x;
        assert(o.contains(m));
        let k = choose|k: int| 0 <= k < o.len() && o[k] == m;
        assert(l[k] == x);
    }
    assert forall|i: int, j: int| #![trigger l[i], l[j]] 0 <= i < j < l.len() implies l[i] != l[j]
        && !key_before(key(l[j]), key(l[i])) by {
        assert(0 <= o[i] < at.len() && 0 <= o[j] < at.len());
        assert(precedes(keys, o[i], o[j]));
        assert(keys[o[i]] == key(l[i]) && keys[o[j]] == key(l[j]));
        law_key_order_is_strict_and_total(key(l[i]), key(l[j]), key(l[i]));
        assert(o[i] != o[j]);
        if o[i] < o[j] {
            assert(at[o[i]] < at[o[j]]);
        } else {
            assert(at[o[j]] < at[o[i]]);
        }
    }
}

/// Puts the rows that are shown into the order of their keys.
pub(crate) fn arrange(
    at: &Vec<usize>,
    keys: &Vec<Vec<Part>>,
    Ghost(n): Ghost<int>,
    Ghost(shown): Ghost<spec_fn(int) -> bool>,
    Ghost(key): Ghost<spec_fn(int) -> Seq<PartValue>>,
) -> (r: Vec<usize>)
    requires
        positions(at@) == rows::all_where(n, shown),
        keys@.len() == at@.len(),
        forall|k: int|
            0 <= k < keys@.len() ==> key_value((#[trigger] keys@[k])@) == key(at@[k] as int),
    ensures
        positions(r@) == listed(n, shown, key),
        forall|i: int| 0 <= i < r@.len() ==> #[trigger] r@[i] < n && shown(r@[i] as int),
{
    let ghost sel = positions(at@);
    assert(key_values(keys@) =~= sel.map_values(key));
    let o = sorted_order(keys);
    let r = pick(at, &o);
    proof {
        rows::lemma_all_where(n, shown);
        assert forall|i: int| 0 <= i < r@.len() implies #[trigger] r@[i] < n && shown(
            r@[i] as int,
        ) by {
            assert(at@.contains(r@[i]));
            let k = choose|k: int| 0 <= k < at@.len() && at@[k] == r@[i];
            assert(sel[k] == r@[i]);
        }
    }
    r
}

// ---- keys, part by part -------------------------------------------------------------------------

/// Of two keys, the first part in which they differ decides which comes first: numbers by
/// value, texts by code points.
pub proof fn law_first_difference_decides(a: Seq<PartValue>, b: Seq<PartValue>, k: int)
    requires
        0 <= k < a.len(),
        k < b.len(),
        forall|i: int| 0 <= i < k ==> a[i] == b[i],
        a[k] != b[k],
    ensures
        key_before(a, b) <==> match (a[k], b[k]) {
            (PartValue::Number(x), PartValue::Number(y)) => x < y,
            (PartValue::Text(x), PartValue::Text(y)) => text::before(x, y),
            (PartValue::Number(_), PartValue::Text(_)) => true,
            (PartValue::Text(_), PartValue::Number(_)) => false,
        },
{
    lemma_common_start(a, b, k);
    assert(a.skip(k)[0] == a[k]);
    assert(b.skip(k)[0] == b[k]);
}

/// A key between two keys that start alike starts like them.
pub proof fn law_key_between_shares_the_start(
    a: Seq<PartValue>,
    c: Seq<PartValue>,
    b: Seq<PartValue>,
    k: int,
)
    requires
        0 <= k <= a.len(),
        k <= b.len(),
        k <= c.len(),
        forall|i: int| 0 <= i < k ==> a[i] == b[i],
        key_before(a, c) || a == c,
        key_before(c, b) || c == b,
    ensures
        forall|i: int| 0 <= i < k ==> a[i] == c[i],
    decreases k,
{
    if k > 0 && a != c && c != b {
        lemma_part_order(a[0], c[0], b[0]);
        assert(a[0] == b[0]);
        assert(a[0] == c[0]);
        let x = a.drop_first();
        let y = c.drop_first();
        let z = b.drop_first();
        assert forall|i: int| 0 <= i < k - 1 implies x[i] == z[i] by {
            assert(a[i + 1] == b[i + 1]);
        }
        law_key_between_shares_the_start(x, y, z, k - 1);
        assert forall|i: int| 0 <= i < k implies a[i] == c[i] by {
            if i > 0 {
                assert(x[i - 1] == y[i - 1]);
            }
        }
    }
}

/// A key stands for its parts in turn: numbers by their value, texts by their characters.
pub proof fn law_keys_stand_for_their_parts(k: Seq<Part>, i: int)
    requires
        0 <= i < k.len(),
    ensures
        key_value(k).len() == k.len(),
        k[i] matches Part::Number(n) ==> key_value(k)[i] == PartValue::Number(n as int),
        k[i] matches Part::Text(t) ==> key_value(k)[i] == PartValue::Text(t@),
{
}

} // verus!
