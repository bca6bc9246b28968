//! Stable sorting by an integer key, as sequences.
use vstd::prelude::*;

verus! {

/// `x` behind the last element of `s` whose key does not exceed its own.
pub open spec fn insert_by<T>(s: Seq<T>, x: T, key: spec_fn(T) -> int) -> Seq<T>
    decreases s.len(),
{
    if s.len() == 0 || key(s.last()) <= key(x) {
        s.push(x)
    } else {
        insert_by(s.drop_last(), x, key).push(s.last())
    }
}

/// `s` sorted by `key`; elements with equal keys keep their order.
pub open spec fn sort_by<T>(s: Seq<T>, key: spec_fn(T) -> int) -> Seq<T>
    decreases s.len(),
{
    if s.len() == 0 {
        s
    } else {
        insert_by(sort_by(s.drop_last(), key), s.last(), key)
    }
}

/// The keys of `s` do not decrease.
pub open spec fn is_sorted_by<T>(s: Seq<T>, key: spec_fn(T) -> int) -> bool {
    forall|i: int, j: int| 0 <= i <= j < s.len() ==> key(#[trigger] s[i]) <= key(#[trigger] s[j])
}

/// Inserting at a place behind which all keys are larger, and before which the last one is not.
pub proof fn lemma_insert_at<T>(s: Seq<T>, x: T, key: spec_fn(T) -> int, at: int)
    requires
        0 <= at <= s.len(),
        forall|i: int| at <= i < s.len() ==> key(x) < key(#[trigger] s[i]),
        at > 0 ==> key(s[at - 1]) <= key(x),
    ensures
        insert_by(s, x, key) == s.insert(at, x),
    decreases s.len(),
{
    if at == s.len() {
        assert(s.insert(at, x) =~= s.push(x));
    } else {
        lemma_insert_at(s.drop_last(), x, key, at);
        assert(s.insert(at, x) =~= s.drop_last().insert(at, x).push(s.last()));
    }
}

/// Every sequence has the place that `lemma_insert_at` asks for.
proof fn lemma_insert_place<T>(s: Seq<T>, x: T, key: spec_fn(T) -> int) -> (at: int)
    ensures
        0 <= at <= s.len(),
        forall|i: int| at <= i < s.len() ==> key(x) < key(#[trigger] s[i]),
        at > 0 ==> key(s[at - 1]) <= key(x),
        insert_by(s, x, key) == s.insert(at, x),
    decreases s.len(),
{
    if s.len() == 0 || key(s.last()) <= key(x) {
        lemma_insert_at(s, x, key, s.len() as int);
        s.len() as int
    } else {
        let at = lemma_insert_place(s.drop_last(), x, key);
        assert forall|i: int| at <= i < s.len() implies key(x) < key(#[trigger] s[i]) by {
            if i < s.len() - 1 {
                assert(s[i] == s.drop_last()[i]);
            }
        }
        lemma_insert_at(s, x, key, at);
        at
    }
}

/// Sorting sorts, and keeps the elements.
pub proof fn lemma_sort_by<T>(s: Seq<T>, key: spec_fn(T) -> int)
    ensures
        is_sorted_by(sort_by(s, key), key),
        sort_by(s, key).len() == s.len(),
        sort_by(s, key).to_multiset() == s.to_multiset(),
    decreases s.len(),
{
    broadcast use vstd::seq_lib::group_to_multiset_ensures;
    if s.len() > 0 {
        let rest = sort_by(s.drop_last(), key);
        lemma_sort_by(s.drop_last(), key);
        let at = lemma_insert_place(rest, s.last(), key);
        let all = rest.insert(at, s.last());
        assert forall|i: int, j: int| 0 <= i <= j < all.len() implies key(#[trigger] all[i]) <= key(
            #[trigger] all[j],
        ) by {
            if i < at {
                assert(all[i] == rest[i]);
                assert(key(rest[i]) <= key(rest[at - 1]));
            }
            if i > at {
                assert(all[i] == rest[i - 1]);
            }
            if j < at {
                assert(all[j] == rest[j]);
            }
            if j > at {
                assert(all[j] == rest[j - 1]);
            }
        }
        assert(s =~= s.drop_last().push(s.last()));
        assert(all.to_multiset() =~= rest.to_multiset().insert(s.last()));
        assert(s.to_multiset() =~= s.drop_last().to_multiset().insert(s.last()));
    }
}

/// Sorting is stable: the elements of each key stand in the order in which they came.
pub proof fn law_sort_is_stable<T>(s: Seq<T>, key: spec_fn(T) -> int, k: int)
    ensures
        sort_by(s, key).filter(|x: T| key(x) == k) == s.filter(|x: T| key(x) == k),
    decreases s.len(),
{
    let same = |x: T| key(x) == k;
    if s.len() > 0 {
        law_sort_is_stable(s.drop_last(), key, k);
        let rest = sort_by(s.drop_last(), key);
        lemma_insert_filter(rest, s.last(), key, k);
        reveal(Seq::filter);
        assert(s.filter(same) == (if same(s.last()) {
            s.drop_last().filter(same).push(s.last())
        } else {
            s.drop_last().filter(same)
        }));
    } else {
        assert(sort_by(s, key) =~= s);
    }
}

proof fn lemma_insert_filter<T>(s: Seq<T>, x: T, key: spec_fn(T) -> int, k: int)
    ensures
        insert_by(s, x, key).filter(|y: T| key(y) == k) == (if key(x) == k {
            s.filter(|y: T| key(y) == k).push(x)
        } else {
            s.filter(|y: T| key(y) == k)
        }),
    decreases s.len(),
{
    let same = |y: T| key(y) == k;
    reveal(Seq::filter);
    if s.len() == 0 || key(s.last()) <= key(x) {
        assert(s.push(x).drop_last() =~= s);
    } else {
        lemma_insert_filter(s.drop_last(), x, key, k);
        let head = insert_by(s.drop_last(), x, key);
        assert(head.push(s.last()).drop_last() =~= head);
    }
}

/// What holds of every element before sorting holds of every element after it.
pub proof fn lemma_sort_by_all<T>(s: Seq<T>, key: spec_fn(T) -> int, pred: spec_fn(T) -> bool)
    requires
        forall|i: int| 0 <= i < s.len() ==> pred(#[trigger] s[i]),
    ensures
        forall|i: int| 0 <= i < sort_by(s, key).len() ==> pred(#[trigger] sort_by(s, key)[i]),
{
    broadcast use vstd::seq_lib::group_to_multiset_ensures;

    let sorted = sort_by(s, key);
    lemma_sort_by(s, key);
    assert forall|i: int| 0 <= i < sorted.len() implies pred(#[trigger] sorted[i]) by {
        assert(sorted.contains(sorted[i]));
        assert(s.to_multiset().count(sorted[i]) > 0);
        assert(s.contains(sorted[i]));
    }
}

/// Distinct keys rise strictly once sorted.
pub proof fn lemma_sort_by_strict<T>(s: Seq<T>, key: spec_fn(T) -> int)
    requires
        forall|i: int, j: int|
            0 <= i < j < s.len() ==> key(#[trigger] s[i]) != key(#[trigger] s[j]),
    ensures
        forall|i: int, j: int|
            0 <= i < j < sort_by(s, key).len() ==> key(#[trigger] sort_by(s, key)[i]) < key(
                #[trigger] sort_by(s, key)[j],
            ),
    decreases s.len(),
{
    if s.len() > 0 {
        let head = s.drop_last();
        let rest = sort_by(head, key);
        let x = s.last();
        assert forall|i: int, j: int| 0 <= i < j < head.len() implies key(#[trigger] head[i]) != key(
            #[trigger] head[j],
        ) by {
            assert(head[i] == s[i] && head[j] == s[j]);
        }
        lemma_sort_by_strict(head, key);
        assert forall|i: int| 0 <= i < head.len() implies key(#[trigger] head[i]) != key(x) by {
            assert(head[i] == s[i]);
        }
        lemma_sort_by_all(head, key, |y: T| key(y) != key(x));
        lemma_sort_by(head, key);
        let at = lemma_insert_place(rest, x, key);
        let all = rest.insert(at, x);
        assert forall|i: int, j: int| 0 <= i < j < all.len() implies key(#[trigger] all[i]) < key(
            #[trigger] all[j],
        ) by {
            if i < at {
                assert(all[i] == rest[i]);
                assert(key(rest[i]) <= key(rest[at - 1]));
                assert((|y: T| key(y) != key(x))(rest[i]));
            }
            if i > at {
                assert(all[i] == rest[i - 1]);
            }
            if j < at {
                assert(all[j] == rest[j]);
            }
            if j > at {
                assert(all[j] == rest[j - 1]);
            }
        }
    }
}

/// Sorting keeps how many elements satisfy a predicate.
pub proof fn lemma_sort_by_count<T>(s: Seq<T>, key: spec_fn(T) -> int, pred: spec_fn(T) -> bool)
    ensures
        sort_by(s, key).filter(pred).len() == s.filter(pred).len(),
    decreases s.len(),
{
    reveal(Seq::filter);
    if s.len() > 0 {
        lemma_sort_by_count(s.drop_last(), key, pred);
        lemma_insert_count(sort_by(s.drop_last(), key), s.last(), key, pred);
    }
}

proof fn lemma_insert_count<T>(s: Seq<T>, x: T, key: spec_fn(T) -> int, pred: spec_fn(T) -> bool)
    ensures
        insert_by(s, x, key).filter(pred).len() == s.filter(pred).len() + (if pred(x) {
            1nat
        } else {
            0nat
        }),
    decreases s.len(),
{
    reveal(Seq::filter);
    if s.len() == 0 || key(s.last()) <= key(x) {
        assert(s.push(x).drop_last() =~= s);
    } else {
        lemma_insert_count(s.drop_last(), x, key, pred);
        let head = insert_by(s.drop_last(), x, key);
        assert(head.push(s.last()).drop_last() =~= head);
    }
}

/// Sorting keeps which elements there are.
pub proof fn lemma_sort_by_contains<T>(s: Seq<T>, key: spec_fn(T) -> int, x: T)
    ensures
        sort_by(s, key).contains(x) <==> s.contains(x),
{
    broadcast use vstd::seq_lib::group_to_multiset_ensures;
    lemma_sort_by(s, key);
    let sorted = sort_by(s, key);
    assert(sorted.contains(x) <==> sorted.to_multiset().count(x) > 0);
    assert(s.contains(x) <==> s.to_multiset().count(x) > 0);
}

/// What is sorted already stays as it is.
pub proof fn lemma_sort_by_sorted<T>(s: Seq<T>, key: spec_fn(T) -> int)
    requires
        is_sorted_by(s, key),
    ensures
        sort_by(s, key) == s,
    decreases s.len(),
{
    if s.len() > 0 {
        let head = s.drop_last();
        assert forall|i: int, j: int| 0 <= i <= j < head.len() implies key(#[trigger] head[i]) <= key(
            #[trigger] head[j],
        ) by {
            assert(head[i] == s[i] && head[j] == s[j]);
        }
        lemma_sort_by_sorted(head, key);
        if head.len() > 0 {
            assert(head.last() == s[s.len() - 2]);
            assert(key(s[s.len() - 2]) <= key(s[s.len() - 1]));
        }
        assert(head.push(s.last()) =~= s);
    }
}

/// Bytes that rise strictly.
pub open spec fn is_rising(s: Seq<u8>) -> bool {
    forall|i: int, j: int| 0 <= i < j < s.len() ==> (#[trigger] s[i]) < (#[trigger] s[j])
}

/// Strictly rising bytes are known by which bytes there are.
pub proof fn lemma_rising_equal(a: Seq<u8>, b: Seq<u8>)
    requires
        is_rising(a),
        is_rising(b),
        forall|x: u8| a.contains(x) <==> b.contains(x),
    ensures
        a == b,
    decreases a.len(),
{
    if a.len() == 0 {
        if b.len() > 0 {
            assert(b.contains(b[0]));
            assert(a.contains(b[0]));
        }
        assert(a =~= b);
    } else {
        assert(a.contains(a.last()));
        let k = choose|k: int| 0 <= k < b.len() && b[k] == a.last();
        assert(b.contains(b.last()));
        let j = choose|j: int| 0 <= j < a.len() && a[j] == b.last();
        assert(a.last() == b.last());
        let p = a.drop_last();
        let q = b.drop_last();
        assert forall|x: u8| p.contains(x) <==> q.contains(x) by {
            if p.contains(x) {
                let i = choose|i: int| 0 <= i < p.len() && p[i] == x;
                assert(a[i] == x && a[i] < a[a.len() - 1]);
                assert(a.contains(x));
                let m = choose|m: int| 0 <= m < b.len() && b[m] == x;
                assert(q[m] == x);
            }
            if q.contains(x) {
                let i = choose|i: int| 0 <= i < q.len() && q[i] == x;
                assert(b[i] == x && b[i] < b[b.len() - 1]);
                assert(b.contains(x));
                let m = choose|m: int| 0 <= m < a.len() && a[m] == x;
                assert(p[m] == x);
            }
        }
        lemma_rising_equal(p, q);
        assert(a =~= p.push(a.last()));
        assert(b =~= q.push(b.last()));
    }
}

/// Where an element is after sorting.
pub proof fn lemma_sorted_place<T>(s: Seq<T>, key: spec_fn(T) -> int, i: int) -> (k: int)
    requires
        0 <= i < s.len(),
    ensures
        0 <= k < sort_by(s, key).len(),
        sort_by(s, key)[k] == s[i],
{
    broadcast use vstd::seq_lib::group_to_multiset_ensures;
    lemma_sort_by(s, key);
    let sorted = sort_by(s, key);
    assert(s.to_multiset().count(s[i]) > 0);
    assert(sorted.to_multiset().count(s[i]) > 0);
    assert(sorted.contains(s[i]));
    choose|k: int| 0 <= k < sorted.len() && sorted[k] == s[i]
}

/// Where an element was before sorting.
pub proof fn lemma_unsorted_place<T>(s: Seq<T>, key: spec_fn(T) -> int, k: int) -> (i: int)
    requires
        0 <= k < sort_by(s, key).len(),
    ensures
        0 <= i < s.len(),
        s[i] == sort_by(s, key)[k],
{
    broadcast use vstd::seq_lib::group_to_multiset_ensures;
    lemma_sort_by(s, key);
    let sorted = sort_by(s, key);
    assert(sorted.to_multiset().count(sorted[k]) > 0);
    assert(s.to_multiset().count(sorted[k]) > 0);
    assert(s.contains(sorted[k]));
    choose|i: int| 0 <= i < s.len() && s[i] == sorted[k]
}

}
