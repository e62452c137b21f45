//! Stable ordering of items by a ranking key.
//!
//! The proxy lists are ordered by keys that may tie; ties keep the order in
//! which the items were given, as a stable sort does.

use vstd::prelude::*;

verus! {

/// A key with a total preorder: `a.ranks_no_later(b)` means that an item
/// keyed `a` may stand before an item keyed `b`.
pub trait Ranked: Sized {
    spec fn ranks_no_later(self, other: Self) -> bool;

    proof fn lemma_total(a: Self, b: Self)
        ensures
            a.ranks_no_later(b) || b.ranks_no_later(a),
    ;

    proof fn lemma_transitive(a: Self, b: Self, c: Self)
        requires
            a.ranks_no_later(b),
            b.ranks_no_later(c),
        ensures
            a.ranks_no_later(c),
    ;

    fn ranks_no_later_exec(&self, other: &Self) -> (r: bool)
        ensures
            r == self.ranks_no_later(*other),
    ;
}

/// Item `a` stands before item `b`: its key ranks no later, and on a tie it
/// came first.
pub open spec fn in_order<K: Ranked>(keys: Seq<K>, a: int, b: int) -> bool {
    &&& keys[a].ranks_no_later(keys[b])
    &&& keys[b].ranks_no_later(keys[a]) ==> a < b
}

/// `order` lists exactly the indices `k` of `keys` with `keep[k]`, ranked by
/// key, ties in index order.
pub open spec fn is_stable_order<K: Ranked>(keys: Seq<K>, keep: Seq<bool>, order: Seq<usize>) -> bool {
    &&& forall|i: int| 0 <= i < order.len() ==> #[trigger] order[i] < keys.len() && keep[order[i] as int]
    &&& forall|k: usize| k < keys.len() && keep[k as int] ==> #[trigger] order.contains(k)
    &&& forall|i: int, j: int|
        0 <= i < j < order.len() ==> in_order(keys, #[trigger] order[i] as int, #[trigger] order[j] as int)
}

/// A stable order has no index twice.
pub proof fn lemma_stable_order_distinct<K: Ranked>(keys: Seq<K>, keep: Seq<bool>, order: Seq<usize>)
    requires
        is_stable_order(keys, keep, order),
    ensures
        forall|i: int, j: int| 0 <= i < j < order.len() ==> order[i] != order[j],
{
    assert forall|i: int, j: int| 0 <= i < j < order.len() implies order[i] != order[j] by {
        assert(in_order(keys, order[i] as int, order[j] as int));
    }
}

/// Two stable orders of the same keys and selection are the same sequence:
/// the order is determined by the keys alone.
pub proof fn lemma_stable_order_unique<K: Ranked>(
    keys: Seq<K>,
    keep: Seq<bool>,
    a: Seq<usize>,
    b: Seq<usize>,
)
    requires
        keep.len() == keys.len(),
        is_stable_order(keys, keep, a),
        is_stable_order(keys, keep, b),
    ensures
        a == b,
    decreases a.len() + b.len(),
{
    lemma_stable_order_distinct(keys, keep, a);
    lemma_stable_order_distinct(keys, keep, b);
    if a.len() == 0 {
        if b.len() > 0 {
            assert(b[0] < keys.len() && keep[b[0] as int]);
            assert(a.contains(b[0]));
        }
        assert(a =~= b);
    } else if b.len() == 0 {
        assert(a[0] < keys.len() && keep[a[0] as int]);
        assert(b.contains(a[0]));
    } else {
        // the first elements agree
        let x = a[0];
        let y = b[0];
        assert(x < keys.len() && keep[x as int]);
        assert(y < keys.len() && keep[y as int]);
        assert(b.contains(x));
        assert(a.contains(y));
        if x != y {
            let jx = choose|j: int| 0 <= j < b.len() && b[j] == x;
            let jy = choose|j: int| 0 <= j < a.len() && a[j] == y;
            assert(jx > 0);
            assert(jy > 0);
            assert(in_order(keys, b[0] as int, b[jx] as int));
            assert(in_order(keys, a[0] as int, a[jy] as int));
            assert(false);
        }
        // the rests are stable orders of the selection without x
        let keep2 = keep.update(x as int, false);
        let a2 = a.drop_first();
        let b2 = b.drop_first();
        assert(is_stable_order(keys, keep2, a2)) by {
            assert forall|i: int| 0 <= i < a2.len() implies #[trigger] a2[i] < keys.len()
                && keep2[a2[i] as int] by {
                assert(a2[i] == a[i + 1]);
                assert(a[0] != a[i + 1]);
            }
            assert forall|k: usize| k < keys.len() && keep2[k as int] implies #[trigger] a2.contains(
                k,
            ) by {
                assert(a.contains(k));
                let j = choose|j: int| 0 <= j < a.len() && a[j] == k;
                assert(j != 0);
                assert(a2[j - 1] == k);
            }
            assert forall|i: int, j: int| 0 <= i < j < a2.len() implies in_order(
                keys,
                #[trigger] a2[i] as int,
                #[trigger] a2[j] as int,
            ) by {
                assert(a2[i] == a[i + 1] && a2[j] == a[j + 1]);
            }
        }
        assert(is_stable_order(keys, keep2, b2)) by {
            assert forall|i: int| 0 <= i < b2.len() implies #[trigger] b2[i] < keys.len()
                && keep2[b2[i] as int] by {
                assert(b2[i] == b[i + 1]);
                assert(b[0] != b[i + 1]);
            }
            assert forall|k: usize| k < keys.len() && keep2[k as int] implies #[trigger] b2.contains(
                k,
            ) by {
                assert(b.contains(k));
                let j = choose|j: int| 0 <= j < b.len() && b[j] == k;
                assert(j != 0);
                assert(b2[j - 1] == k);
            }
            assert forall|i: int, j: int| 0 <= i < j < b2.len() implies in_order(
                keys,
                #[trigger] b2[i] as int,
                #[trigger] b2[j] as int,
            ) by {
                assert(b2[i] == b[i + 1] && b2[j] == b[j + 1]);
            }
        }
        lemma_stable_order_unique(keys, keep2, a2, b2);
        assert(a =~= seq![x] + a2);
        assert(b =~= seq![y] + b2);
    }
}

/// `order` with `k` inserted after every element that ranks no later than
/// it, walking from the back.
pub open spec fn insert_ranked<K: Ranked>(keys: Seq<K>, order: Seq<usize>, k: usize) -> Seq<usize>
    decreases order.len(),
{
    if order.len() == 0 {
        seq![k]
    } else if keys[order.last() as int].ranks_no_later(keys[k as int]) {
        order.push(k)
    } else {
        insert_ranked(keys, order.drop_last(), k).push(order.last())
    }
}

/// The stable order of the first `n` items, built by insertion.
pub open spec fn insertion_order<K: Ranked>(keys: Seq<K>, keep: Seq<bool>, n: nat) -> Seq<usize>
    decreases n,
{
    if n == 0 {
        Seq::empty()
    } else {
        let o = insertion_order(keys, keep, (n - 1) as nat);
        if keep[n - 1] {
            insert_ranked(keys, o, (n - 1) as usize)
        } else {
            o
        }
    }
}

proof fn lemma_insert_ranked<K: Ranked>(keys: Seq<K>, order: Seq<usize>, k: usize)
    requires
        k < keys.len(),
        forall|i: int| 0 <= i < order.len() ==> #[trigger] order[i] < k,
        forall|i: int, j: int|
            0 <= i < j < order.len() ==> in_order(keys, #[trigger] order[i] as int, #[trigger] order[j] as int),
    ensures
        insert_ranked(keys, order, k).len() == order.len() + 1,
        forall|x: usize| #[trigger] insert_ranked(keys, order, k).contains(x) <==> (x == k || order.contains(x)),
        forall|i: int, j: int|
            0 <= i < j < insert_ranked(keys, order, k).len() ==> in_order(
                keys,
                #[trigger] insert_ranked(keys, order, k)[i] as int,
                #[trigger] insert_ranked(keys, order, k)[j] as int,
            ),
    decreases order.len(),
{
    let r = insert_ranked(keys, order, k);
    if order.len() == 0 {
        assert forall|x: usize| #[trigger] r.contains(x) <==> (x == k || order.contains(x)) by {
            if r.contains(x) {
                assert(r[0] == k);
            }
            if x == k {
                assert(r[0] == k);
            }
        }
    } else {
        let last = order.last();
        if keys[last as int].ranks_no_later(keys[k as int]) {
            assert forall|i: int, j: int| 0 <= i < j < r.len() implies in_order(
                keys,
                #[trigger] r[i] as int,
                #[trigger] r[j] as int,
            ) by {
                if j == order.len() {
                    if i < order.len() - 1 {
                        assert(in_order(keys, order[i] as int, last as int));
                        K::lemma_transitive(keys[order[i] as int], keys[last as int], keys[k as int]);
                    }
                    assert(order[i] < k);
                } else {
                    assert(r[i] == order[i] && r[j] == order[j]);
                }
            }
            assert forall|x: usize| #[trigger] r.contains(x) <==> (x == k || order.contains(x)) by {
                if r.contains(x) {
                    let i = choose|i: int| 0 <= i < r.len() && r[i] == x;
                    if i < order.len() {
                        assert(order[i] == x);
                    }
                }
                if order.contains(x) {
                    let i = choose|i: int| 0 <= i < order.len() && order[i] == x;
                    assert(r[i] == x);
                }
                if x == k {
                    assert(r[order.len() as int] == k);
                }
            }
        } else {
            let d = order.drop_last();
            assert forall|i: int| 0 <= i < d.len() implies #[trigger] d[i] < k by {
                assert(d[i] == order[i]);
            }
            assert forall|i: int, j: int| 0 <= i < j < d.len() implies in_order(
                keys,
                #[trigger] d[i] as int,
                #[trigger] d[j] as int,
            ) by {
                assert(d[i] == order[i] && d[j] == order[j]);
            }
            lemma_insert_ranked(keys, d, k);
            let q = insert_ranked(keys, d, k);
            assert(r == q.push(last));
            assert forall|i: int, j: int| 0 <= i < j < r.len() implies in_order(
                keys,
                #[trigger] r[i] as int,
                #[trigger] r[j] as int,
            ) by {
                if j == q.len() {
                    assert(r[i] == q[i]);
                    assert(q.contains(q[i]));
                    if q[i] == k {
                        K::lemma_total(keys[k as int], keys[last as int]);
                    } else {
                        assert(d.contains(q[i]));
                        let m = choose|m: int| 0 <= m < d.len() && d[m] == q[i];
                        assert(in_order(keys, order[m] as int, order[order.len() - 1] as int));
                    }
                } else {
                    assert(r[i] == q[i] && r[j] == q[j]);
                }
            }
            assert forall|x: usize| #[trigger] r.contains(x) <==> (x == k || order.contains(x)) by {
                if r.contains(x) {
                    let i = choose|i: int| 0 <= i < r.len() && r[i] == x;
                    if i < q.len() {
                        assert(q[i] == x);
                        assert(q.contains(x));
                        if x != k {
                            assert(d.contains(x));
                            let m = choose|m: int| 0 <= m < d.len() && d[m] == x;
                            assert(order[m] == x);
                        }
                    } else {
                        assert(order[order.len() - 1] == x);
                    }
                }
                if order.contains(x) {
                    let i = choose|i: int| 0 <= i < order.len() && order[i] == x;
                    if i < order.len() - 1 {
                        assert(d[i] == x);
                        assert(d.contains(x));
                        assert(q.contains(x));
                        let m = choose|m: int| 0 <= m < q.len() && q[m] == x;
                        assert(r[m] == x);
                    } else {
                        assert(r[q.len() as int] == x);
                    }
                }
                if x == k {
                    assert(q.contains(k));
                    let m = choose|m: int| 0 <= m < q.len() && q[m] == k;
                    assert(r[m] == k);
                }
            }
        }
    }
}

/// Every selection of items has a stable order (the one built by
/// insertion).
pub proof fn lemma_stable_order_exists<K: Ranked>(keys: Seq<K>, keep: Seq<bool>, n: nat)
    requires
        keep.len() == keys.len(),
        keys.len() <= usize::MAX,
        n <= keys.len(),
    ensures
        forall|i: int| 0 <= i < insertion_order(keys, keep, n).len() ==> #[trigger] insertion_order(keys, keep, n)[i] < n
            && keep[insertion_order(keys, keep, n)[i] as int],
        forall|k: usize| k < n && keep[k as int] ==> #[trigger] insertion_order(keys, keep, n).contains(k),
        forall|i: int, j: int|
            0 <= i < j < insertion_order(keys, keep, n).len() ==> in_order(
                keys,
                #[trigger] insertion_order(keys, keep, n)[i] as int,
                #[trigger] insertion_order(keys, keep, n)[j] as int,
            ),
        n == keys.len() ==> is_stable_order(keys, keep, insertion_order(keys, keep, n)),
    decreases n,
{
    if n > 0 {
        let m = (n - 1) as nat;
        lemma_stable_order_exists(keys, keep, m);
        let o = insertion_order(keys, keep, m);
        let r = insertion_order(keys, keep, n);
        if keep[m as int] {
            lemma_insert_ranked(keys, o, m as usize);
            assert(r == insert_ranked(keys, o, m as usize));
            assert forall|i: int| 0 <= i < r.len() implies #[trigger] r[i] < n && keep[r[i] as int] by {
                assert(r.contains(r[i]));
                if r[i] != m {
                    assert(o.contains(r[i]));
                    let j = choose|j: int| 0 <= j < o.len() && o[j] == r[i];
                    assert(o[j] < m);
                }
            }
            assert forall|k: usize| k < n && keep[k as int] implies #[trigger] r.contains(k) by {
                if k < m {
                    assert(o.contains(k));
                }
            }
        } else {
            assert(r == o);
            assert forall|k: usize| k < n && keep[k as int] implies #[trigger] r.contains(k) by {
                assert(k != m);
            }
        }
    }
}

/// The stable order of a selection, as a specification.
pub open spec fn stable_order_of<K: Ranked>(keys: Seq<K>, keep: Seq<bool>) -> Seq<usize> {
    choose|o: Seq<usize>| is_stable_order(keys, keep, o)
}

/// The stable order of a selection exists, is unique, and is what
/// `stable_order_of` names.
pub proof fn lemma_stable_order_of<K: Ranked>(keys: Seq<K>, keep: Seq<bool>)
    requires
        keep.len() == keys.len(),
        keys.len() <= usize::MAX,
    ensures
        is_stable_order(keys, keep, stable_order_of(keys, keep)),
        forall|o: Seq<usize>| is_stable_order(keys, keep, o) ==> o == stable_order_of(keys, keep),
{
    lemma_stable_order_exists(keys, keep, keys.len());
    let w = insertion_order(keys, keep, keys.len());
    assert(is_stable_order(keys, keep, w));
    let c = stable_order_of(keys, keep);
    assert forall|o: Seq<usize>| is_stable_order(keys, keep, o) implies o == stable_order_of(keys, keep) by {
        lemma_stable_order_unique(keys, keep, o, c);
    }
}

/// The indices `k` of `keys` with `keep[k]`, ranked by key, ties in index
/// order (a stable sort of the kept items).
pub fn stable_order<K: Ranked>(keys: &Vec<K>, keep: &Vec<bool>) -> (order: Vec<usize>)
    requires
        keep.len() == keys.len(),
    ensures
        is_stable_order(keys@, keep@, order@),
{
    let n = keys.len();
    let mut order: Vec<usize> = Vec::new();
    for k in 0..n
        invariant
            n == keys.len(),
            keep.len() == keys.len(),
            forall|i: int|
                0 <= i < order.len() ==> #[trigger] order@[i] < k && keep@[order@[i] as int],
            forall|j: usize| j < k && keep@[j as int] ==> #[trigger] order@.contains(j),
            forall|i: int, j: int|
                0 <= i < j < order.len() ==> in_order(
                    keys@,
                    #[trigger] order@[i] as int,
                    #[trigger] order@[j] as int,
                ),
    {
        if keep[k] {
            let mut p: usize = 0;
            while p < order.len() && keys[order[p]].ranks_no_later_exec(&keys[k])
                invariant
                    0 <= p <= order.len(),
                    n == keys.len(),
                    k < n,
                    forall|i: int| 0 <= i < order.len() ==> #[trigger] order@[i] < k,
                    forall|q: int|
                        0 <= q < p ==> keys@[#[trigger] order@[q] as int].ranks_no_later(
                            keys@[k as int],
                        ),
                decreases order.len() - p,
            {
                p += 1;
            }
            let ghost old_order = order@;
            assert forall|q: int| p <= q < old_order.len() implies !keys@[#[trigger] old_order[q] as int].ranks_no_later(
                keys@[k as int],
            ) by {
                if q > p && keys@[old_order[q] as int].ranks_no_later(keys@[k as int]) {
                    assert(in_order(keys@, old_order[p as int] as int, old_order[q] as int));
                    K::lemma_transitive(
                        keys@[old_order[p as int] as int],
                        keys@[old_order[q] as int],
                        keys@[k as int],
                    );
                }
            }
            order.insert(p, k);
            assert(order@ == old_order.insert(p as int, k));
            assert forall|i: int, j: int| 0 <= i < j < order.len() implies in_order(
                keys@,
                #[trigger] order@[i] as int,
                #[trigger] order@[j] as int,
            ) by {
                if j < p {
                    assert(order@[i] == old_order[i] && order@[j] == old_order[j]);
                } else if i > p {
                    assert(order@[i] == old_order[i - 1] && order@[j] == old_order[j - 1]);
                } else if i < p && j > p {
                    assert(order@[i] == old_order[i] && order@[j] == old_order[j - 1]);
                } else if j == p {
                    assert(order@[i] == old_order[i]);
                } else {
                    assert(i == p);
                    assert(order@[j] == old_order[j - 1]);
                    K::lemma_total(keys@[k as int], keys@[old_order[j - 1] as int]);
                }
            }
            assert forall|j: usize| j < k + 1 && keep@[j as int] implies #[trigger] order@.contains(
                j,
            ) by {
                if j == k {
                    assert(order@[p as int] == k);
                } else {
                    assert(old_order.contains(j));
                    let q = choose|q: int| 0 <= q < old_order.len() && old_order[q] == j;
                    if q < p {
                        assert(order@[q] == j);
                    } else {
                        assert(order@[q + 1] == j);
                    }
                }
            }
        } else {
            assert forall|j: usize| j < k + 1 && keep@[j as int] implies #[trigger] order@.contains(
                j,
            ) by {
                assert(j != k);
            }
        }
    }
    order
}

} // verus!
