//! Stable ordering of items by integer keys.
//!
//! Neighbour lists are ordered by the direction of the edge they stand for.
//! The caller turns each direction into a `u64` key whose order is the order
//! of the directions; this module sorts by those keys, keeping items with
//! equal keys in the order they came in. Items that are ordered by a
//! comparison of the caller's, such as the holes of a canonical polygon,
//! are sorted by index with a stable insertion sort.

use vstd::prelude::*;

use crate::scan::{answers_at, functional_at};

verus! {

/// How many entries of `s` have a key at most `k`.
pub open spec fn count_le(s: Seq<(u64, usize)>, k: u64) -> nat
    decreases s.len(),
{
    if s.len() == 0 {
        0
    } else {
        count_le(s.drop_last(), k) + if s.last().0 <= k { 1nat } else { 0nat }
    }
}

/// Inserts `x` after every entry whose key is at most the key of `x`.
pub open spec fn insert_stable(s: Seq<(u64, usize)>, x: (u64, usize)) -> Seq<(u64, usize)> {
    s.insert(count_le(s, x.0) as int, x)
}

/// The stable sort of `s` by key: entries are inserted one by one, each
/// after all entries already placed whose key is not greater.
pub open spec fn stable_sort(s: Seq<(u64, usize)>) -> Seq<(u64, usize)>
    decreases s.len(),
{
    if s.len() == 0 {
        Seq::empty()
    } else {
        insert_stable(stable_sort(s.drop_last()), s.last())
    }
}

/// Keys never decrease along `s`.
pub open spec fn keys_sorted(s: Seq<(u64, usize)>) -> bool {
    forall|i: int, j: int| 0 <= i <= j < s.len() ==> s[i].0 <= s[j].0
}

/// Pairs each item with its key.
pub open spec fn keyed(keys: Seq<u64>, items: Seq<usize>) -> Seq<(u64, usize)> {
    Seq::new(items.len(), |i: int| (keys[i], items[i]))
}

/// The items of keyed entries, in order.
pub open spec fn items_of(s: Seq<(u64, usize)>) -> Seq<usize> {
    s.map_values(|p: (u64, usize)| p.1)
}

/// When the entries with key at most `k` form the prefix of length `p`,
/// there are exactly `p` of them.
proof fn lemma_count_le_prefix(s: Seq<(u64, usize)>, k: u64, p: int)
    requires
        0 <= p <= s.len(),
        forall|j: int| 0 <= j < p ==> s[j].0 <= k,
        forall|j: int| p <= j < s.len() ==> s[j].0 > k,
    ensures
        count_le(s, k) == p,
    decreases s.len(),
{
    if s.len() > 0 {
        if p == s.len() {
            lemma_count_le_prefix(s.drop_last(), k, p - 1);
        } else {
            lemma_count_le_prefix(s.drop_last(), k, p);
        }
    }
}

/// The stable sort has the same length as its input, keeps the keys in
/// order, and holds only entries of its input.
pub proof fn lemma_stable_sort(s: Seq<(u64, usize)>)
    ensures
        stable_sort(s).len() == s.len(),
        keys_sorted(stable_sort(s)),
        forall|i: int| 0 <= i < s.len() ==> s.contains(#[trigger] stable_sort(s)[i]),
        stable_sort(s).to_multiset() =~= s.to_multiset(),
    decreases s.len(),
{
    broadcast use vstd::seq_lib::group_seq_properties;

    if s.len() > 0 {
        let r = stable_sort(s.drop_last());
        lemma_stable_sort(s.drop_last());
        let x = s.last();
        let p = count_le(r, x.0) as int;
        lemma_sorted_split(r, x.0);
        r.insert_ensures(p, x);
        let t = r.insert(p, x);
        assert(t == stable_sort(s));
        assert forall|i: int, j: int| 0 <= i <= j < t.len() implies t[i].0 <= t[j].0 by {
            if i < p && j < p {
            } else if i < p && j == p {
            } else if i < p {
                assert(t[j] == r[j - 1]);
            } else if i == p && j == p {
            } else if i == p {
                assert(t[j] == r[j - 1]);
            } else {
                assert(t[i] == r[i - 1]);
                assert(t[j] == r[j - 1]);
            }
        }
        assert forall|i: int| 0 <= i < s.len() implies s.contains(#[trigger] t[i]) by {
            if i < p {
                assert(s.drop_last().contains(r[i]));
                let w = choose|w: int| 0 <= w < s.drop_last().len() && s.drop_last()[w] == r[i];
                assert(s[w] == t[i]);
            } else if i == p {
                assert(s[s.len() - 1] == t[i]);
            } else {
                assert(t[i] == r[i - 1]);
                assert(s.drop_last().contains(r[i - 1]));
                let w = choose|w: int| 0 <= w < s.drop_last().len() && s.drop_last()[w] == r[i - 1];
                assert(s[w] == t[i]);
            }
        }
        assert(t =~= r.subrange(0, p).push(x) + r.subrange(p, r.len() as int));
        assert(r =~= r.subrange(0, p) + r.subrange(p, r.len() as int));
        vstd::seq_lib::lemma_multiset_commutative(r.subrange(0, p).push(x), r.subrange(p, r.len() as int));
        vstd::seq_lib::lemma_multiset_commutative(r.subrange(0, p), r.subrange(p, r.len() as int));
        assert(s =~= s.drop_last().push(x));
    }
}

/// In a key-sorted sequence the entries with key at most `k` are exactly
/// the first `count_le(r, k)` ones.
proof fn lemma_sorted_split(r: Seq<(u64, usize)>, k: u64)
    requires
        keys_sorted(r),
    ensures
        count_le(r, k) <= r.len(),
        forall|j: int| 0 <= j < count_le(r, k) ==> r[j].0 <= k,
        forall|j: int| count_le(r, k) <= j < r.len() ==> r[j].0 > k,
    decreases r.len(),
{
    if r.len() > 0 {
        let d = r.drop_last();
        assert(keys_sorted(d));
        lemma_sorted_split(d, k);
        let c = count_le(d, k);
        if r.last().0 <= k {
            if c < d.len() {
                assert(d[c as int].0 <= r.last().0);
            }
            assert(count_le(r, k) == r.len());
            assert forall|j: int| 0 <= j < count_le(r, k) implies r[j].0 <= k by {
                if j < d.len() {
                    assert(r[j] == d[j]);
                }
            }
        } else {
            assert(count_le(r, k) == c);
            assert forall|j: int| 0 <= j < count_le(r, k) implies r[j].0 <= k by {
                assert(r[j] == d[j]);
            }
            assert forall|j: int| count_le(r, k) <= j < r.len() implies r[j].0 > k by {
                if j < d.len() {
                    assert(r[j] == d[j]);
                }
            }
        }
    }
}

/// Sorts `items` by `keys`, the key of `items[i]` being `keys[i]`; items
/// with equal keys keep their relative order.
pub fn sort_by_keys(items: &Vec<usize>, keys: &[u64]) -> (sorted: Vec<usize>)
    requires
        keys@.len() == items@.len(),
    ensures
        sorted@ == items_of(stable_sort(keyed(keys@, items@))),
{
    let n = items.len();
    let ghost input = keyed(keys@, items@);
    let mut out: Vec<(u64, usize)> = Vec::new();
    let mut i: usize = 0;
    while i < n
        invariant
            i <= n,
            n == items@.len(),
            keys@.len() == n,
            input == keyed(keys@, items@),
            out@ == stable_sort(input.take(i as int)),
            keys_sorted(out@),
        decreases n - i,
    {
        let x = (keys[i], items[i]);
        proof {
            assert(input.take(i + 1).drop_last() =~= input.take(i as int));
            assert(input.take(i + 1).last() == x);
        }
        let mut p: usize = 0;
        while p < out.len() && out[p].0 <= x.0
            invariant
                p <= out@.len(),
                forall|j: int| 0 <= j < p ==> out@[j].0 <= x.0,
            decreases out@.len() - p,
        {
            p = p + 1;
        }
        proof {
            assert(forall|j: int| p <= j < out@.len() ==> out@[j].0 > x.0) by {
                if p < out@.len() {
                    assert(out@[p as int].0 > x.0);
                }
            }
            lemma_count_le_prefix(out@, x.0, p as int);
            out@.insert_ensures(p as int, x);
            lemma_stable_sort(input.take(i + 1));
        }
        out.insert(p, x);
        i = i + 1;
    }
    proof {
        assert(input.take(n as int) =~= input);
    }
    let mut sorted: Vec<usize> = Vec::new();
    let mut k: usize = 0;
    while k < out.len()
        invariant
            k <= out@.len(),
            sorted@ =~= items_of(out@).take(k as int),
        decreases out@.len() - k,
    {
        sorted.push(out[k].1);
        k = k + 1;
    }
    sorted
}

/// Sorting by keys puts the keys in order and is a permutation of the keyed
/// input.
pub proof fn lemma_sort_by_keys_laws(keys: Seq<u64>, items: Seq<usize>)
    requires
        keys.len() == items.len(),
    ensures
        keys_sorted(stable_sort(keyed(keys, items))),
        stable_sort(keyed(keys, items)).to_multiset() =~= keyed(keys, items).to_multiset(),
        items_of(stable_sort(keyed(keys, items))).len() == items.len(),
{
    lemma_stable_sort(keyed(keys, items));
}


/// The entries of `s` whose key is `k`, in order.
pub open spec fn with_key(s: Seq<(u64, usize)>, k: u64) -> Seq<(u64, usize)>
    decreases s.len(),
{
    if s.len() == 0 {
        Seq::empty()
    } else if s.last().0 == k {
        with_key(s.drop_last(), k).push(s.last())
    } else {
        with_key(s.drop_last(), k)
    }
}

proof fn lemma_with_key_append(a: Seq<(u64, usize)>, b: Seq<(u64, usize)>, k: u64)
    ensures
        with_key(a + b, k) == with_key(a, k) + with_key(b, k),
    decreases b.len(),
{
    if b.len() == 0 {
        assert(a + b =~= a);
        assert(with_key(a, k) + with_key(b, k) =~= with_key(a, k));
    } else {
        lemma_with_key_append(a, b.drop_last(), k);
        assert((a + b).drop_last() =~= a + b.drop_last());
        assert((a + b).last() == b.last());
        if b.last().0 == k {
            assert(with_key(a, k) + with_key(b.drop_last(), k).push(b.last()) =~= (with_key(a, k)
                + with_key(b.drop_last(), k)).push(b.last()));
        }
    }
}

proof fn lemma_with_key_none(b: Seq<(u64, usize)>, k: u64)
    requires
        forall|j: int| 0 <= j < b.len() ==> b[j].0 != k,
    ensures
        with_key(b, k) == Seq::<(u64, usize)>::empty(),
    decreases b.len(),
{
    if b.len() > 0 {
        lemma_with_key_none(b.drop_last(), k);
    }
}

/// The sort is stable: for every key, the entries with that key come out
/// in the order they went in.
pub proof fn lemma_stable_sort_is_stable(s: Seq<(u64, usize)>, k: u64)
    ensures
        with_key(stable_sort(s), k) == with_key(s, k),
    decreases s.len(),
{
    if s.len() > 0 {
        let d = s.drop_last();
        let x = s.last();
        let r = stable_sort(d);
        lemma_stable_sort_is_stable(d, k);
        lemma_stable_sort(d);
        lemma_sorted_split(r, x.0);
        let p = count_le(r, x.0) as int;
        let front = r.subrange(0, p);
        let back = r.subrange(p, r.len() as int);
        assert(r =~= front + back);
        assert(stable_sort(s) =~= front.push(x) + back);
        lemma_with_key_append(front.push(x), back, k);
        lemma_with_key_append(front, back, k);
        assert(front.push(x).drop_last() =~= front);
        if x.0 == k {
            lemma_with_key_none(back, k);
            assert(with_key(front, k) + Seq::<(u64, usize)>::empty() =~= with_key(front, k));
            assert(with_key(front.push(x), k) + Seq::<(u64, usize)>::empty() =~= with_key(front.push(x), k));
        }
    }
}

/// Where `insert_by` puts `x` in `s`: after the last entry, scanning from
/// the back, for which `less(x, entry)` does not hold.
pub open spec fn insert_pos<L: Fn(usize, usize) -> bool>(less: L, s: Seq<usize>, x: usize) -> int
    decreases s.len(),
{
    if s.len() == 0 || !answers_at(less, x as int, s.last() as int) {
        s.len() as int
    } else {
        insert_pos(less, s.drop_last(), x)
    }
}

/// `s` with `x` inserted at `insert_pos`.
pub open spec fn insert_by<L: Fn(usize, usize) -> bool>(less: L, s: Seq<usize>, x: usize) -> Seq<usize>
    decreases s.len(),
{
    if s.len() == 0 || !answers_at(less, x as int, s.last() as int) {
        s.push(x)
    } else {
        insert_by(less, s.drop_last(), x).push(s.last())
    }
}

/// Insertion sort of `s` by `less`, inserting its entries front to back.
pub open spec fn sort_seq_by<L: Fn(usize, usize) -> bool>(less: L, s: Seq<usize>) -> Seq<usize>
    decreases s.len(),
{
    if s.len() == 0 {
        Seq::empty()
    } else {
        insert_by(less, sort_seq_by(less, s.drop_last()), s.last())
    }
}

/// The indices `0..n` in increasing order.
pub open spec fn indices(n: nat) -> Seq<usize> {
    Seq::new(n, |i: int| i as usize)
}

/// `insert_by` inserts `x` at `insert_pos`; every entry before that
/// position is one that `x` is not less than at the position just before
/// it, and `x` is less than every entry after it.
proof fn lemma_insert_by<L: Fn(usize, usize) -> bool>(less: L, s: Seq<usize>, x: usize)
    ensures
        0 <= insert_pos(less, s, x) <= s.len(),
        insert_by(less, s, x) == s.insert(insert_pos(less, s, x), x),
        insert_pos(less, s, x) > 0 ==> !answers_at(less, x as int, s[insert_pos(less, s, x) - 1] as int),
        forall|k: int| insert_pos(less, s, x) <= k < s.len() ==> answers_at(less, x as int, #[trigger] s[k] as int),
    decreases s.len(),
{
    if s.len() == 0 || !answers_at(less, x as int, s.last() as int) {
        assert(s.insert(s.len() as int, x) =~= s.push(x));
    } else {
        let d = s.drop_last();
        lemma_insert_by(less, d, x);
        let j = insert_pos(less, d, x);
        assert(insert_by(less, s, x) =~= s.insert(j, x));
        assert forall|k: int| j <= k < s.len() implies answers_at(less, x as int, #[trigger] s[k] as int) by {
            if k < d.len() {
                assert(s[k] == d[k]);
            }
        }
    }
}

/// Sorts the indices `0..n` by `less`, where `less(a, b)` says that the
/// item at `a` comes strictly before the item at `b`: each index in turn is
/// inserted after the last index already placed that it is not less than.
pub fn sort_indices_by<L: Fn(usize, usize) -> bool>(n: usize, less: L) -> (order: Vec<usize>)
    requires
        functional_at(less, n as nat, n as nat),
    ensures
        order@ == sort_seq_by(less, indices(n as nat)),
{
    let mut order: Vec<usize> = Vec::new();
    let mut i: usize = 0;
    while i < n
        invariant
            i <= n,
            functional_at(less, n as nat, n as nat),
            order@ == sort_seq_by(less, indices(i as nat)),
            forall|k: int| 0 <= k < order@.len() ==> #[trigger] order@[k] < i,
        decreases n - i,
    {
        proof {
            assert(indices((i + 1) as nat).drop_last() =~= indices(i as nat));
            assert(indices((i + 1) as nat).last() == i);
        }
        let ghost s = order@;
        let mut j = order.len();
        proof {
            assert(s.take(j as int) =~= s);
            assert(insert_by(less, s, i) + s.subrange(j as int, s.len() as int) =~= insert_by(less, s, i));
        }
        while j > 0 && less(i, order[j - 1])
            invariant
                j <= s.len(),
                order@ == s,
                i < n,
                functional_at(less, n as nat, n as nat),
                forall|k: int| 0 <= k < s.len() ==> #[trigger] s[k] < i,
                insert_by(less, s, i) == insert_by(less, s.take(j as int), i) + s.subrange(j as int, s.len() as int),
            decreases j,
        {
            proof {
                let t = s.take(j as int);
                assert(t.drop_last() =~= s.take(j - 1));
                assert(t.last() == s[j - 1]);
                assert(insert_by(less, t, i) == insert_by(less, s.take(j - 1), i).push(s[j - 1]));
                assert(insert_by(less, s.take(j - 1), i).push(s[j - 1]) + s.subrange(j as int, s.len() as int)
                    =~= insert_by(less, s.take(j - 1), i) + s.subrange(j - 1, s.len() as int));
            }
            j = j - 1;
        }
        proof {
            let t = s.take(j as int);
            if j > 0 {
                assert(t.last() == s[j - 1]);
            }
            assert(insert_by(less, t, i) == t.push(i));
            assert(t.push(i) + s.subrange(j as int, s.len() as int) =~= s.insert(j as int, i));
        }
        order.insert(j, i);
        i = i + 1;
    }
    order
}

/// `less` is a strict weak order on `0..n`: irreflexive, transitive, and
/// whenever `a` is less than `c`, every `b` is above `a` or below `c`.
pub open spec fn strict_weak_order<L: Fn(usize, usize) -> bool>(less: L, n: nat) -> bool {
    &&& forall|a: int| 0 <= a < n ==> !#[trigger] answers_at(less, a, a)
    &&& forall|a: int, b: int, c: int|
        0 <= a < n && 0 <= b < n && 0 <= c < n && #[trigger] answers_at(less, a, b) && #[trigger] answers_at(
            less,
            b,
            c,
        ) ==> answers_at(less, a, c)
    &&& forall|a: int, b: int, c: int|
        #![trigger answers_at(less, a, c), answers_at(less, a, b)]
        #![trigger answers_at(less, a, c), answers_at(less, b, c)]
        0 <= a < n && 0 <= b < n && 0 <= c < n && answers_at(less, a, c) ==> answers_at(less, a, b)
            || answers_at(less, b, c)
}

/// Sorting the indices `0..n` by `less` gives each index exactly once;
/// two indices that `less` does not tell apart either way keep their
/// original order; and when `less` is a strict weak order, no index comes
/// after one that it is less than.
pub proof fn lemma_sort_indices_laws<L: Fn(usize, usize) -> bool>(less: L, n: nat)
    requires
        n <= usize::MAX,
    ensures
        ({
            let r = sort_seq_by(less, indices(n));
            &&& r.len() == n
            &&& r.no_duplicates()
            &&& forall|k: int| 0 <= k < n ==> #[trigger] r[k] < n
            &&& forall|v: usize| v < n ==> r.contains(v)
            &&& forall|a: int, b: int|
                0 <= a < b < n && !answers_at(less, r[a] as int, r[b] as int) && !answers_at(
                    less,
                    r[b] as int,
                    r[a] as int,
                ) ==> #[trigger] r[a] < #[trigger] r[b]
            &&& strict_weak_order(less, n) ==> forall|a: int, b: int|
                0 <= a < b < n ==> !answers_at(less, #[trigger] r[b] as int, #[trigger] r[a] as int)
        }),
    decreases n,
{
    if n > 0 {
        let m = (n - 1) as nat;
        lemma_sort_indices_laws(less, m);
        assert(indices(n).drop_last() =~= indices(m));
        let s = sort_seq_by(less, indices(m));
        let x = m as usize;
        assert(indices(n).last() == x);
        lemma_insert_by(less, s, x);
        let j = insert_pos(less, s, x);
        let r = sort_seq_by(less, indices(n));
        assert(r == s.insert(j, x));
        assert forall|p: int| 0 <= p < n implies #[trigger] r[p] == if p < j {
            s[p]
        } else if p == j {
            x
        } else {
            s[p - 1]
        } by {}
        assert(r.len() == n);
        assert forall|k: int| 0 <= k < n implies #[trigger] r[k] < n by {}
        assert(r.no_duplicates()) by {
            assert forall|a: int, b: int| 0 <= a < r.len() && 0 <= b < r.len() && a != b implies r[a] != r[b] by {
                if a != j && b != j {
                    let a2 = if a < j { a } else { a - 1 };
                    let b2 = if b < j { b } else { b - 1 };
                    assert(s[a2] != s[b2]);
                } else if a == j {
                    let b2 = if b < j { b } else { b - 1 };
                    assert(s[b2] < x);
                } else {
                    let a2 = if a < j { a } else { a - 1 };
                    assert(s[a2] < x);
                }
            }
        }
        assert forall|v: usize| v < n implies r.contains(v) by {
            if v == x {
                assert(r[j] == v);
            } else {
                assert(s.contains(v));
                let w = choose|w: int| 0 <= w < s.len() && s[w] == v;
                if w < j {
                    assert(r[w] == v);
                } else {
                    assert(r[w + 1] == v);
                }
            }
        }
        assert forall|a: int, b: int|
            0 <= a < b < n && !answers_at(less, r[a] as int, r[b] as int) && !answers_at(
                less,
                r[b] as int,
                r[a] as int,
            ) implies #[trigger] r[a] < #[trigger] r[b] by {
            if a == j {
                assert(answers_at(less, x as int, s[b - 1] as int));
            } else if b == j {
                assert(s[a] < x);
            } else {
                let a2 = if a < j { a } else { a - 1 };
                let b2 = if b < j { b } else { b - 1 };
                assert(s[a2] < s[b2]);
            }
        }
        if strict_weak_order(less, n) {
            assert(strict_weak_order(less, m));
            assert forall|a: int, b: int| 0 <= a < b < n implies !answers_at(
                less,
                #[trigger] r[b] as int,
                #[trigger] r[a] as int,
            ) by {
                if a == j {
                    let y = s[b - 1];
                    assert(answers_at(less, x as int, y as int));
                    if answers_at(less, y as int, x as int) {
                        assert(answers_at(less, x as int, x as int));
                    }
                } else if b == j {
                    let y = s[a];
                    let z = s[j - 1];
                    assert(!answers_at(less, x as int, z as int));
                    if a < j - 1 {
                        assert(!answers_at(less, z as int, y as int));
                    }
                    if answers_at(less, x as int, y as int) {
                        assert(answers_at(less, x as int, z as int) || answers_at(less, z as int, y as int));
                    }
                } else {
                    let a2 = if a < j { a } else { a - 1 };
                    let b2 = if b < j { b } else { b - 1 };
                    assert(!answers_at(less, s[b2] as int, s[a2] as int));
                }
            }
        }
    }
}

} // verus!
