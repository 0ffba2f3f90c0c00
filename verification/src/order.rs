//! Stable orders: the indices of a list, by ascending key, equal keys in their first order.
use vstd::prelude::*;

verus! {

/// Index `i` comes before index `j`.
pub open spec fn before(keys: Seq<i64>, i: int, j: int) -> bool {
    keys[i] < keys[j] || (keys[i] == keys[j] && i < j)
}

/// No index stands behind one that comes before it.
pub open spec fn ordered(keys: Seq<i64>, order: Seq<usize>) -> bool {
    forall|a: int, b: int|
        0 <= a < b < order.len() ==> before(
            keys,
            #[trigger] order[a] as int,
            #[trigger] order[b] as int,
        )
}

/// `order` lists every index of `keys` once, by ascending key, equal keys in their first order.
pub open spec fn is_stable_order(keys: Seq<i64>, order: Seq<usize>) -> bool {
    &&& order.len() == keys.len()
    &&& forall|a: int| 0 <= a < order.len() ==> #[trigger] order[a] < keys.len()
    &&& forall|i: usize| i < keys.len() ==> order.contains(i)
    &&& ordered(keys, order)
}

/// The stable order of `keys`.
pub open spec fn stable_order_of(keys: Seq<i64>) -> Seq<usize> {
    choose|order: Seq<usize>| is_stable_order(keys, order)
}

/// Two ordered lists of the same indices are the same.
proof fn ordered_lists_agree(keys: Seq<i64>, a: Seq<usize>, b: Seq<usize>)
    requires
        ordered(keys, a),
        ordered(keys, b),
        forall|i: usize| a.contains(i) <==> b.contains(i),
    ensures
        a == b,
    decreases a.len(),
{
    if a.len() == 0 {
        if b.len() > 0 {
            assert(b.contains(b[0]));
        }
        assert(a =~= b);
    } else {
        assert(a.contains(a[0]));
        let p = choose|p: int| 0 <= p < b.len() && b[p] == a[0];
        assert(b.contains(b[0]));
        let q = choose|q: int| 0 <= q < a.len() && a[q] == b[0];
        if a[0] != b[0] {
            assert(before(keys, b[0] as int, b[p] as int));
            assert(before(keys, a[0] as int, a[q] as int));
        }
        let (x, y) = (a.drop_first(), b.drop_first());
        assert forall|i: int, j: int| 0 <= i < j < x.len() implies before(
            keys,
            #[trigger] x[i] as int,
            #[trigger] x[j] as int,
        ) by {
            assert(before(keys, a[i + 1] as int, a[j + 1] as int));
        }
        assert forall|i: int, j: int| 0 <= i < j < y.len() implies before(
            keys,
            #[trigger] y[i] as int,
            #[trigger] y[j] as int,
        ) by {
            assert(before(keys, b[i + 1] as int, b[j + 1] as int));
        }
        assert forall|i: usize| x.contains(i) <==> y.contains(i) by {
            if x.contains(i) {
                let k = choose|k: int| 0 <= k < x.len() && x[k] == i;
                assert(a[k + 1] == i);
                assert(before(keys, a[0] as int, a[k + 1] as int));
                assert(b.contains(i));
                let m = choose|m: int| 0 <= m < b.len() && b[m] == i;
                assert(y[m - 1] == i);
            }
            if y.contains(i) {
                let k = choose|k: int| 0 <= k < y.len() && y[k] == i;
                assert(b[k + 1] == i);
                assert(before(keys, b[0] as int, b[k + 1] as int));
                assert(a.contains(i));
                let m = choose|m: int| 0 <= m < a.len() && a[m] == i;
                assert(x[m - 1] == i);
            }
        }
        ordered_lists_agree(keys, x, y);
        assert(a =~= seq![a[0]] + x);
        assert(b =~= seq![b[0]] + y);
    }
}

/// A list of keys has one stable order.
pub proof fn stable_order_is_unique(keys: Seq<i64>, order: Seq<usize>)
    requires
        is_stable_order(keys, order),
    ensures
        order == stable_order_of(keys),
{
    let other = stable_order_of(keys);
    assert(is_stable_order(keys, other));
    assert forall|i: usize| order.contains(i) <==> other.contains(i) by {
        if order.contains(i) {
            let k = choose|k: int| 0 <= k < order.len() && order[k] == i;
        }
        if other.contains(i) {
            let k = choose|k: int| 0 <= k < other.len() && other[k] == i;
        }
    }
    ordered_lists_agree(keys, order, other);
}

/// A list of keys has a stable order.
pub proof fn stable_order_exists(keys: Seq<i64>) -> (order: Seq<usize>)
    requires
        keys.len() <= usize::MAX,
    ensures
        is_stable_order(keys, order),
    decreases keys.len(),
{
    if keys.len() == 0 {
        Seq::empty()
    } else {
        let i = keys.len() - 1;
        let prior = stable_order_exists(keys.drop_last());
        let at = insertion_point(keys, prior, prior.len() as int);
        inserted_in_order(keys, prior, at, i as usize);
        prior.insert(at, i as usize)
    }
}

/// Where the key of the last index belongs among the indices before it.
proof fn insertion_point(keys: Seq<i64>, prior: Seq<usize>, end: int) -> (at: int)
    requires
        keys.len() > 0,
        0 <= end <= prior.len(),
        forall|a: int| end <= a < prior.len() ==> keys[#[trigger] prior[a] as int] > keys.last(),
    ensures
        0 <= at <= prior.len(),
        at > 0 ==> keys[prior[at - 1] as int] <= keys.last(),
        forall|a: int| at <= a < prior.len() ==> keys[#[trigger] prior[a] as int] > keys.last(),
    decreases end,
{
    if end > 0 && keys[prior[end - 1] as int] > keys.last() {
        insertion_point(keys, prior, end - 1)
    } else {
        end
    }
}

/// An index put in its place among those before it.
proof fn inserted_in_order(keys: Seq<i64>, prior: Seq<usize>, at: int, i: usize)
    requires
        i < keys.len(),
        0 <= at <= prior.len() == i,
        forall|a: int| 0 <= a < prior.len() ==> #[trigger] prior[a] < i,
        forall|j: usize| j < i ==> prior.contains(j),
        ordered(keys.take(i as int), prior),
        at > 0 ==> keys[prior[at - 1] as int] <= keys[i as int],
        forall|a: int| at <= a < i ==> keys[#[trigger] prior[a] as int] > keys[i as int],
    ensures
        is_stable_order(keys.take(i + 1), prior.insert(at, i)),
{
    let order = prior.insert(at, i);
    let (few, more) = (keys.take(i as int), keys.take(i + 1));
    assert forall|a: int, b: int| 0 <= a < b < order.len() implies before(
        more,
        #[trigger] order[a] as int,
        #[trigger] order[b] as int,
    ) by {
        if a < at && b < at {
            assert(before(few, prior[a] as int, prior[b] as int));
        } else if a > at && b > at {
            assert(before(few, prior[a - 1] as int, prior[b - 1] as int));
        } else if a < at && b > at {
            assert(before(few, prior[a] as int, prior[b - 1] as int));
        } else if b == at {
            if a < at - 1 {
                assert(before(few, prior[a] as int, prior[at - 1] as int));
            }
        } else {
            assert(order[b] == prior[b - 1]);
        }
    }
    assert forall|j: usize| j < i + 1 implies order.contains(j) by {
        if j == i {
            assert(order[at] == i);
        } else {
            assert(prior.contains(j));
            let k = choose|k: int| 0 <= k < prior.len() && prior[k] == j;
            if k < at {
                assert(order[k] == j);
            } else {
                assert(order[k + 1] == j);
            }
        }
    }
}

/// The indices of `keys` by ascending key, equal keys in their first order.
pub fn stable_order(keys: &Vec<i64>) -> (order: Vec<usize>)
    ensures
        is_stable_order(keys@, order@),
        order@ == stable_order_of(keys@),
{
    let mut order: Vec<usize> = Vec::new();
    let mut i: usize = 0;
    while i < keys.len()
        invariant
            i <= keys.len(),
            is_stable_order(keys@.take(i as int), order@),
        decreases keys.len() - i,
    {
        let mut at: usize = i;
        while at > 0 && keys[order[at - 1]] > keys[i]
            invariant
                i < keys.len(),
                at <= i,
                order.len() == i,
                forall|a: int| 0 <= a < order.len() ==> #[trigger] order[a] < i,
                forall|a: int| at <= a < i ==> keys[#[trigger] order[a] as int] > keys[i as int],
            decreases at,
        {
            at = at - 1;
        }
        proof {
            inserted_in_order(keys@, order@, at as int, i);
        }
        order.insert(at, i);
        i = i + 1;
    }
    assert(keys@.take(i as int) =~= keys@);
    proof {
        stable_order_is_unique(keys@, order@);
    }
    order
}

} // verus!
