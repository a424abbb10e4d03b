//! Searching tables of rows by position.

use vstd::prelude::*;

verus! {

/// The first of `n` rows for which a condition holds.
pub open spec fn first_where(n: int, holds: spec_fn(int) -> bool) -> Option<int>
    decreases n,
{
    if n <= 0 {
        None
    } else {
        match first_where(n - 1, holds) {
            Some(i) => Some(i),
            None => if holds(n - 1) {
                Some(n - 1)
            } else {
                None
            },
        }
    }
}

/// The last of `n` rows for which a condition holds.
pub open spec fn last_where(n: int, holds: spec_fn(int) -> bool) -> Option<int>
    decreases n,
{
    if n <= 0 {
        None
    } else if holds(n - 1) {
        Some(n - 1)
    } else {
        last_where(n - 1, holds)
    }
}

/// The positions of those of `n` rows for which a condition holds.
pub open spec fn all_where(n: int, holds: spec_fn(int) -> bool) -> Seq<int>
    decreases n,
{
    if n <= 0 {
        Seq::empty()
    } else if holds(n - 1) {
        all_where(n - 1, holds).push(n - 1)
    } else {
        all_where(n - 1, holds)
    }
}

/// How many of `n` rows a condition holds for.
pub open spec fn count_where(n: int, holds: spec_fn(int) -> bool) -> int {
    all_where(n, holds).len() as int
}

/// The first row that a condition holds for is the one found, and none before it
/// has the condition.
pub proof fn lemma_first_where(n: int, holds: spec_fn(int) -> bool)
    ensures
        match first_where(n, holds) {
            Some(i) => 0 <= i < n && holds(i) && forall|k: int| 0 <= k < i ==> !#[trigger] holds(k),
            None => forall|k: int| 0 <= k < n ==> !#[trigger] holds(k),
        },
    decreases n,
{
    if n > 0 {
        lemma_first_where(n - 1, holds);
    }
}

/// A row that a condition holds for, with none before it, is the first one.
pub proof fn lemma_first_is(n: int, holds: spec_fn(int) -> bool, i: int)
    requires
        0 <= i < n,
        holds(i),
        forall|k: int| 0 <= k < i ==> !#[trigger] holds(k),
    ensures
        first_where(n, holds) == Some(i),
{
    lemma_first_where(n, holds);
    let f = first_where(n, holds);
    assert(f is Some);
    if f->0 < i {
        assert(!holds(f->0));
    }
}

/// The last row that a condition holds for is the one found, and none after it has
/// the condition.
pub proof fn lemma_last_where(n: int, holds: spec_fn(int) -> bool)
    ensures
        match last_where(n, holds) {
            Some(i) => 0 <= i < n && holds(i) && forall|k: int| i < k < n ==> !#[trigger] holds(k),
            None => forall|k: int| 0 <= k < n ==> !#[trigger] holds(k),
        },
    decreases n,
{
    if n > 0 {
        lemma_last_where(n - 1, holds);
    }
}

/// The positions found are those of the rows that a condition holds for, ascending.
pub proof fn lemma_all_where(n: int, holds: spec_fn(int) -> bool)
    ensures
        forall|i: int|
            0 <= i < all_where(n, holds).len() ==> 0 <= #[trigger] all_where(n, holds)[i] < n
                && holds(all_where(n, holds)[i]),
        forall|i: int, j: int|
            #![trigger all_where(n, holds)[i], all_where(n, holds)[j]]
            0 <= i < j < all_where(n, holds).len() ==> all_where(n, holds)[i] < all_where(
                n,
                holds,
            )[j],
        forall|k: int| 0 <= k < n && #[trigger] holds(k) ==> all_where(n, holds).contains(k),
        all_where(n, holds).len() <= if n < 0 { 0 } else { n },
    decreases n,
{
    if n > 0 {
        lemma_all_where(n - 1, holds);
        let before = all_where(n - 1, holds);
        let now = all_where(n, holds);
        assert forall|k: int| 0 <= k < n && #[trigger] holds(k) implies now.contains(k) by {
            if k == n - 1 {
                assert(now[before.len() as int] == k);
            } else {
                let i = choose|i: int| 0 <= i < before.len() && before[i] == k;
                assert(now[i] == k);
            }
        }
    }
}

/// Conditions that agree on `n` rows hold for the same of them.
pub proof fn lemma_same_rows(n: int, f: spec_fn(int) -> bool, g: spec_fn(int) -> bool)
    requires
        forall|i: int| 0 <= i < n ==> #[trigger] f(i) == g(i),
    ensures
        all_where(n, f) == all_where(n, g),
    decreases n,
{
    if n > 0 {
        lemma_same_rows(n - 1, f, g);
        assert(f(n - 1) == g(n - 1));
    }
}

/// Where rows of one kind are those of two others that have none in common, there are as
/// many as of both.
pub proof fn lemma_count_of_both(
    n: int,
    f: spec_fn(int) -> bool,
    g: spec_fn(int) -> bool,
    h: spec_fn(int) -> bool,
)
    requires
        forall|i: int| 0 <= i < n ==> #[trigger] h(i) == (f(i) || g(i)) && !(f(i) && g(i)),
    ensures
        count_where(n, h) == count_where(n, f) + count_where(n, g),
    decreases n,
{
    if n > 0 {
        lemma_count_of_both(n - 1, f, g, h);
        assert(h(n - 1) == (f(n - 1) || g(n - 1)));
    }
}

/// The rows that are flagged to be kept.
pub open spec fn kept<T>(v: Seq<T>, keep: Seq<bool>) -> Seq<T>
    decreases v.len(),
{
    if v.len() == 0 {
        Seq::empty()
    } else {
        let before = kept(v.drop_last(), keep.drop_last());
        if keep.last() {
            before.push(v.last())
        } else {
            before
        }
    }
}

/// Rows flagged by a condition are the rows that it filters out.
pub proof fn lemma_kept_by<T>(v: Seq<T>, keep: Seq<bool>, holds: spec_fn(T) -> bool)
    requires
        v.len() == keep.len(),
        forall|i: int| 0 <= i < v.len() ==> #[trigger] keep[i] == holds(v[i]),
    ensures
        kept(v, keep) == v.filter(holds),
    decreases v.len(),
{
    reveal(Seq::filter);
    if v.len() > 0 {
        let k = keep.drop_last();
        assert forall|i: int| 0 <= i < v.drop_last().len() implies #[trigger] k[i] == holds(
            v.drop_last()[i],
        ) by {
            assert(k[i] == keep[i]);
        }
        lemma_kept_by(v.drop_last(), k, holds);
        assert(keep[v.len() - 1] == holds(v[v.len() - 1]));
    } else {
        assert(kept(v, keep) =~= v.filter(holds));
    }
}

/// Drops the rows that are not flagged to be kept.
pub fn retain<T>(v: &mut Vec<T>, keep: &Vec<bool>)
    requires
        old(v)@.len() == keep@.len(),
    ensures
        final(v)@ == kept(old(v)@, keep@),
{
    let ghost start = v@;
    let n: usize = keep.len();
    let mut i: usize = 0;
    let mut at: usize = 0;
    assert(start.take(0) =~= Seq::<T>::empty());
    assert(start.skip(0) =~= start);
    assert(v@ =~= kept(start.take(0), keep@.take(0)) + start.skip(0));
    while i < n
        invariant
            i <= n,
            n == keep@.len(),
            start.len() == n,
            at == kept(start.take(i as int), keep@.take(i as int)).len(),
            at <= i,
            v@ == kept(start.take(i as int), keep@.take(i as int)) + start.skip(i as int),
        decreases n - i,
    {
        let ghost before = kept(start.take(i as int), keep@.take(i as int));
        assert(start.take(i + 1).drop_last() =~= start.take(i as int));
        assert(keep@.take(i + 1).drop_last() =~= keep@.take(i as int));
        if keep[i] {
            at += 1;
            assert(before.push(start[i as int]) + start.skip(i + 1) =~= before + start.skip(
                i as int,
            ));
        } else {
            let _dropped = v.remove(at);
            assert(v@ =~= before + start.skip(i + 1));
        }
        i += 1;
    }
    assert(start.take(n as int) =~= start);
    assert(keep@.take(n as int) =~= keep@);
    assert(v@ =~= kept(start, keep@));
}

/// Rows are counted one by one: the count goes up by one for every row that the condition
/// holds for, and by none for any other.
pub proof fn law_rows_are_counted_one_by_one(n: int, holds: spec_fn(int) -> bool)
    requires
        n >= 0,
    ensures
        count_where(0, holds) == 0,
        holds(n) ==> count_where(n + 1, holds) == count_where(n, holds) + 1,
        !holds(n) ==> count_where(n + 1, holds) == count_where(n, holds),
        0 <= count_where(n, holds) <= n,
        count_where(n, holds) + count_where(n, |i: int| !holds(i)) == n,
        (forall|i: int| 0 <= i < n ==> #[trigger] holds(i)) ==> count_where(n, holds) == n,
        (forall|i: int| 0 <= i < n ==> !#[trigger] holds(i)) ==> count_where(n, holds) == 0,
    decreases n,
{
    if n > 0 {
        law_rows_are_counted_one_by_one(n - 1, holds);
    }
}

} // verus!
