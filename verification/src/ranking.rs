//! Stable sorting: a verified merge sort over positions.

use vstd::prelude::*;

verus! {

/// A strict weak order with an executable test.
pub trait Ranked: Sized {
    /// `self` comes strictly before `other`.
    spec fn ahead(&self, other: &Self) -> bool;

    /// No two values are each before the other.
    proof fn ahead_is_asymmetric(a: Self, b: Self)
        ensures
            !(a.ahead(&b) && b.ahead(&a)),
    ;

    /// Not being before is transitive.
    proof fn not_ahead_is_transitive(a: Self, b: Self, c: Self)
        requires
            !a.ahead(&b),
            !b.ahead(&c),
        ensures
            !a.ahead(&c),
    ;

    /// Executable form of `ahead`.
    fn is_ahead(&self, other: &Self) -> (r: bool)
        ensures
            r == self.ahead(other),
    ;
}

/// Position `i` is listed before position `j`: its item is strictly ahead, or
/// the two items tie and `i` came first.
pub open spec fn listed_before<T: Ranked>(items: Seq<T>, i: int, j: int) -> bool {
    items[i].ahead(&items[j]) || (!items[j].ahead(&items[i]) && i < j)
}

/// `order` lists the positions `lo..hi`, each exactly once, best first, ties in
/// their original order.
pub open spec fn is_ranking_of<T: Ranked>(
    items: Seq<T>,
    order: Seq<usize>,
    lo: int,
    hi: int,
) -> bool {
    &&& order.len() == hi - lo
    &&& forall|k: int| 0 <= k < order.len() ==> lo <= #[trigger] order[k] < hi
    &&& forall|i: usize| lo <= i < hi ==> #[trigger] order.contains(i)
    &&& forall|a: int, b: int|
        0 <= a < b < order.len() ==> listed_before(items, order[a] as int, order[b] as int)
}

/// `order` is the stable sort of `items`, as positions.
pub open spec fn is_ranking<T: Ranked>(items: Seq<T>, order: Seq<usize>) -> bool {
    is_ranking_of(items, order, 0, items.len() as int)
}

/// The stable sort of `items`, as positions.
pub open spec fn the_ranking<T: Ranked>(items: Seq<T>) -> Seq<usize> {
    choose|order: Seq<usize>| is_ranking(items, order)
}

/// The items at the listed positions.
pub open spec fn picked<T>(items: Seq<T>, order: Seq<usize>) -> Seq<T> {
    Seq::new(order.len(), |k: int| items[order[k] as int])
}

/// The items, best first, ties in their original order.
pub open spec fn sorted<T: Ranked>(items: Seq<T>) -> Seq<T> {
    picked(items, the_ranking(items))
}

proof fn listed_before_is_transitive<T: Ranked>(items: Seq<T>, i: int, j: int, k: int)
    requires
        listed_before(items, i, j),
        listed_before(items, j, k),
    ensures
        listed_before(items, i, k),
{
    T::ahead_is_asymmetric(items[i], items[j]);
    T::ahead_is_asymmetric(items[j], items[k]);
    // The later of a listed pair is never ahead of the earlier.
    T::not_ahead_is_transitive(items[k], items[j], items[i]);
    if items[i].ahead(&items[j]) {
        if !items[i].ahead(&items[k]) {
            T::not_ahead_is_transitive(items[i], items[k], items[j]);
        }
    } else if items[j].ahead(&items[k]) {
        if !items[i].ahead(&items[k]) {
            T::not_ahead_is_transitive(items[j], items[i], items[k]);
        }
    }
}

/// A stable sort is unique: two rankings of the same items are the same list.
pub proof fn ranking_is_unique<T: Ranked>(items: Seq<T>, a: Seq<usize>, b: Seq<usize>)
    requires
        is_ranking(items, a),
        is_ranking(items, b),
    ensures
        a == b,
{
    ranking_prefix_is_unique(items, a, b, a.len() as int);
    assert(a =~= b);
}

proof fn ranking_prefix_is_unique<T: Ranked>(
    items: Seq<T>,
    a: Seq<usize>,
    b: Seq<usize>,
    n: int,
)
    requires
        is_ranking(items, a),
        is_ranking(items, b),
        0 <= n <= a.len(),
    ensures
        forall|k: int| 0 <= k < n ==> a[k] == b[k],
    decreases n,
{
    if n > 0 {
        ranking_prefix_is_unique(items, a, b, n - 1);
        let x = a[n - 1];
        let y = b[n - 1];
        if x != y {
            assert(b.contains(x));
            let p = choose|p: int| 0 <= p < b.len() && b[p] == x;
            assert(a.contains(y));
            let q = choose|q: int| 0 <= q < a.len() && a[q] == y;
            if p < n - 1 {
                assert(a[p] == b[p]);
                assert(listed_before(items, a[p] as int, a[n - 1] as int));
                T::ahead_is_asymmetric(items[x as int], items[x as int]);
                assert(false);
            }
            if q < n - 1 {
                assert(a[q] == b[q]);
                assert(listed_before(items, b[q] as int, b[n - 1] as int));
                T::ahead_is_asymmetric(items[y as int], items[y as int]);
                assert(false);
            }
            assert(listed_before(items, b[n - 1] as int, b[p] as int));
            assert(listed_before(items, a[n - 1] as int, a[q] as int));
            T::ahead_is_asymmetric(items[x as int], items[y as int]);
            assert(false);
        }
    }
}

/// The first place of the order whose item position `n` is ahead of.
spec fn insertion_place<T: Ranked>(items: Seq<T>, order: Seq<usize>, n: int, from: int) -> int
    decreases order.len() - from,
{
    if from < 0 || from >= order.len() {
        order.len() as int
    } else if items[n].ahead(&items[order[from] as int]) {
        from
    } else {
        insertion_place(items, order, n, from + 1)
    }
}

proof fn insertion_place_is_first<T: Ranked>(
    items: Seq<T>,
    order: Seq<usize>,
    n: int,
    from: int,
)
    requires
        0 <= from <= order.len(),
    ensures
        from <= insertion_place(items, order, n, from) <= order.len(),
        forall|k: int|
            from <= k < insertion_place(items, order, n, from) ==> !items[n].ahead(
                &items[#[trigger] order[k] as int],
            ),
        insertion_place(items, order, n, from) < order.len() ==> items[n].ahead(
            &items[order[insertion_place(items, order, n, from)] as int],
        ),
    decreases order.len() - from,
{
    if from < order.len() && !items[n].ahead(&items[order[from] as int]) {
        insertion_place_is_first(items, order, n, from + 1);
    }
}

proof fn prefix_has_ranking<T: Ranked>(items: Seq<T>, n: int)
    requires
        0 <= n <= items.len(),
        items.len() <= usize::MAX,
    ensures
        exists|order: Seq<usize>| is_ranking_of(items, order, 0, n),
    decreases n,
{
    if n == 0 {
        assert(is_ranking_of(items, Seq::empty(), 0, 0));
    } else {
        prefix_has_ranking(items, n - 1);
        let last = n - 1;
        let order = choose|order: Seq<usize>| is_ranking_of(items, order, 0, last);
        let p = insertion_place(items, order, n - 1, 0);
        insertion_place_is_first(items, order, n - 1, 0);
        let x = (n - 1) as usize;
        let more = order.insert(p, x);
        assert forall|i: usize| 0 <= i < n implies #[trigger] more.contains(i) by {
            if i == x {
                assert(more[p] == i);
            } else {
                assert(order.contains(i));
                let k = choose|k: int| 0 <= k < order.len() && order[k] == i;
                if k < p {
                    assert(more[k] == i);
                } else {
                    assert(more[k + 1] == i);
                }
            }
        }
        assert forall|a: int, b: int| 0 <= a < b < more.len() implies listed_before(
            items,
            more[a] as int,
            more[b] as int,
        ) by {
            let ia = if a < p { a } else { a - 1 };
            let ib = if b < p { b } else { b - 1 };
            if a == p {
                assert(more[b] == order[b - 1]);
                T::ahead_is_asymmetric(items[n - 1], items[order[p] as int]);
                assert(listed_before(items, n - 1, order[p] as int));
                if b - 1 > p {
                    assert(listed_before(items, order[p] as int, order[b - 1] as int));
                    listed_before_is_transitive(
                        items,
                        n - 1,
                        order[p] as int,
                        order[b - 1] as int,
                    );
                }
            } else if b == p {
                assert(more[a] == order[a]);
                assert(!items[n - 1].ahead(&items[order[a] as int]));
            } else {
                assert(more[a] == order[ia] && more[b] == order[ib]);
                assert(listed_before(items, order[ia] as int, order[ib] as int));
            }
        }
        assert forall|k: int| 0 <= k < more.len() implies 0 <= #[trigger] more[k] < n by {
            if k < p {
                assert(more[k] == order[k]);
            } else if k > p {
                assert(more[k] == order[k - 1]);
            }
        }
        assert(is_ranking_of(items, more, 0, n));
    }
}

/// Every list has a stable sort.
pub proof fn every_list_has_a_ranking<T: Ranked>(items: Seq<T>)
    requires
        items.len() <= usize::MAX,
    ensures
        is_ranking(items, the_ranking(items)),
{
    prefix_has_ranking(items, items.len() as int);
    let n = items.len() as int;
    let order = choose|order: Seq<usize>| is_ranking_of(items, order, 0, n);
    assert(is_ranking(items, order));
}

/// Merge two ranked runs of neighbouring positions.
fn merge<T: Ranked>(
    items: &Vec<T>,
    left: &Vec<usize>,
    right: &Vec<usize>,
    Ghost(lo): Ghost<int>,
    Ghost(mid): Ghost<int>,
    Ghost(hi): Ghost<int>,
) -> (order: Vec<usize>)
    requires
        0 <= lo <= mid <= hi <= items.len(),
        is_ranking_of(items@, left@, lo, mid),
        is_ranking_of(items@, right@, mid, hi),
    ensures
        is_ranking_of(items@, order@, lo, hi),
{
    let mut order: Vec<usize> = Vec::new();
    let mut i: usize = 0;
    let mut j: usize = 0;
    while i < left.len() || j < right.len()
        invariant
            0 <= lo <= mid <= hi <= items.len(),
            is_ranking_of(items@, left@, lo, mid),
            is_ranking_of(items@, right@, mid, hi),
            i <= left.len(),
            j <= right.len(),
            order.len() == i + j,
            forall|k: int| 0 <= k < order.len() ==> lo <= #[trigger] order[k] < hi,
            forall|k: int| 0 <= k < i ==> order@.contains(#[trigger] left[k]),
            forall|k: int| 0 <= k < j ==> order@.contains(#[trigger] right[k]),
            forall|a: int, b: int|
                0 <= a < b < order.len() ==> listed_before(
                    items@,
                    order[a] as int,
                    order[b] as int,
                ),
            i < left.len() ==> forall|a: int|
                0 <= a < order.len() ==> listed_before(
                    items@,
                    #[trigger] order[a] as int,
                    left[i as int] as int,
                ),
            j < right.len() ==> forall|a: int|
                0 <= a < order.len() ==> listed_before(
                    items@,
                    #[trigger] order[a] as int,
                    right[j as int] as int,
                ),
        decreases left.len() + right.len() - i - j,
    {
        let ghost before = order@;
        let take_right = if i == left.len() {
            true
        } else if j == right.len() {
            false
        } else {
            items[right[j]].is_ahead(&items[left[i]])
        };
        if take_right {
            let x: usize = right[j];
            proof {
                if i < left.len() {
                    T::ahead_is_asymmetric(items@[x as int], items@[left@[i as int] as int]);
                    assert(listed_before(items@, x as int, left@[i as int] as int));
                }
                if j + 1 < right.len() {
                    assert(listed_before(items@, x as int, right@[j as int + 1] as int));
                    assert forall|a: int| 0 <= a < before.len() implies listed_before(
                        items@,
                        #[trigger] before[a] as int,
                        right@[j as int + 1] as int,
                    ) by {
                        listed_before_is_transitive(
                            items@,
                            before[a] as int,
                            x as int,
                            right@[j as int + 1] as int,
                        );
                    }
                }
            }
            order.push(x);
            j = j + 1;
        } else {
            let x: usize = left[i];
            proof {
                if j < right.len() {
                    assert(x < right@[j as int]);
                    assert(listed_before(items@, x as int, right@[j as int] as int));
                }
                if i + 1 < left.len() {
                    assert(listed_before(items@, x as int, left@[i as int + 1] as int));
                    assert forall|a: int| 0 <= a < before.len() implies listed_before(
                        items@,
                        #[trigger] before[a] as int,
                        left@[i as int + 1] as int,
                    ) by {
                        listed_before_is_transitive(
                            items@,
                            before[a] as int,
                            x as int,
                            left@[i as int + 1] as int,
                        );
                    }
                }
            }
            order.push(x);
            i = i + 1;
        }
        proof {
            assert(order@[before.len() as int] == order@.last());
            assert forall|k: int| 0 <= k < i implies order@.contains(#[trigger] left[k]) by {
                if before.contains(left[k]) {
                    let p = choose|p: int| 0 <= p < before.len() && before[p] == left[k];
                    assert(order@[p] == left[k]);
                }
            }
            assert forall|k: int| 0 <= k < j implies order@.contains(#[trigger] right[k]) by {
                if before.contains(right[k]) {
                    let p = choose|p: int| 0 <= p < before.len() && before[p] == right[k];
                    assert(order@[p] == right[k]);
                }
            }
        }
    }
    proof {
        assert forall|p: usize| lo <= p < hi implies #[trigger] order@.contains(p) by {
            if p < mid {
                assert(left@.contains(p));
                let k = choose|k: int| 0 <= k < left.len() && left@[k] == p;
                assert(order@.contains(left[k]));
            } else {
                assert(right@.contains(p));
                let k = choose|k: int| 0 <= k < right.len() && right@[k] == p;
                assert(order@.contains(right[k]));
            }
        }
    }
    order
}

fn rank_range<T: Ranked>(items: &Vec<T>, lo: usize, hi: usize) -> (order: Vec<usize>)
    requires
        lo <= hi <= items.len(),
    ensures
        is_ranking_of(items@, order@, lo as int, hi as int),
    decreases hi - lo,
{
    let mut order: Vec<usize> = Vec::new();
    if hi - lo == 0 {
        order
    } else if hi - lo == 1 {
        order.push(lo);
        assert(order@[0] == lo);
        order
    } else {
        let mid: usize = lo + (hi - lo) / 2;
        let left = rank_range(items, lo, mid);
        let right = rank_range(items, mid, hi);
        merge(items, &left, &right, Ghost(lo as int), Ghost(mid as int), Ghost(hi as int))
    }
}

/// The stable sort of `items`, best first, as positions.
pub fn ranking<T: Ranked>(items: &Vec<T>) -> (order: Vec<usize>)
    ensures
        is_ranking(items@, order@),
        order@ == the_ranking(items@),
{
    let order = rank_range(items, 0, items.len());
    proof {
        assert(is_ranking(items@, order@));
        ranking_is_unique(items@, order@, the_ranking(items@));
    }
    order
}

/// No item of the sorted list is strictly ahead of an earlier one, and the list
/// has as many items as were given.
pub proof fn sorted_is_in_order<T: Ranked>(items: Seq<T>, order: Seq<usize>)
    requires
        is_ranking(items, order),
    ensures
        sorted(items) == picked(items, order),
        sorted(items).len() == items.len(),
        forall|a: int, b: int|
            #![trigger sorted(items)[a], sorted(items)[b]]
            0 <= a < b < items.len() ==> !sorted(items)[b].ahead(&sorted(items)[a]),
{
    ranking_is_unique(items, order, the_ranking(items));
    assert forall|a: int, b: int|
        #![trigger sorted(items)[a], sorted(items)[b]]
        0 <= a < b < items.len() implies !sorted(items)[b].ahead(&sorted(items)[a]) by {
        assert(listed_before(items, order[a] as int, order[b] as int));
        T::ahead_is_asymmetric(items[order[a] as int], items[order[b] as int]);
    }
}

} // verus!
