//! Generic scans over coordinate sequences.
//!
//! Several kernel steps walk a coordinate list once and keep, drop or pick
//! entries by a comparison of coordinates: dropping repeated points,
//! trimming repeats of the first point from the end of an open ring,
//! closing a ring, picking an extreme vertex and rotating a ring to start
//! there. The comparisons are the caller's; the scans are here.

use vstd::prelude::*;

use crate::simplify::{answers1, functional1};

verus! {

/// The caller's comparison answered `true` for `(a, b)`.
pub open spec fn answers2<T, F: Fn(T, T) -> bool>(f: F, a: T, b: T) -> bool {
    call_ensures(f, (a, b), true)
}

/// The comparison can be called on every pair of entries of `items` and
/// gives one answer per pair.
pub open spec fn functional2<T, F: Fn(T, T) -> bool>(f: F, items: Seq<T>) -> bool {
    &&& forall|i: int, j: int|
        0 <= i < items.len() && 0 <= j < items.len() ==> call_requires(f, (#[trigger] items[i], #[trigger] items[j]))
    &&& forall|i: int, j: int|
        0 <= i < items.len() && 0 <= j < items.len() ==> !(call_ensures(f, (#[trigger] items[i], #[trigger] items[j]), true)
            && call_ensures(f, (items[i], items[j]), false))
}

/// The index comparison answered `true` for `(i, j)`.
pub open spec fn answers_at<F: Fn(usize, usize) -> bool>(f: F, i: int, j: int) -> bool {
    call_ensures(f, (i as usize, j as usize), true)
}

/// The index comparison can be called on every pair `(i, j)` with `i`
/// below `n1` and `j` below `n2`, and gives one answer per pair.
pub open spec fn functional_at<F: Fn(usize, usize) -> bool>(f: F, n1: nat, n2: nat) -> bool {
    &&& forall|i: usize, j: usize| i < n1 && j < n2 ==> call_requires(f, (i, j))
    &&& forall|i: usize, j: usize|
        i < n1 && j < n2 ==> !(#[trigger] call_ensures(f, (i, j), true) && call_ensures(f, (i, j), false))
}

/// `items` with each entry dropped when the caller calls it the same as the
/// last entry kept before it.
pub open spec fn dedup_seq<T, F: Fn(T, T) -> bool>(items: Seq<T>, same: F) -> Seq<T>
    decreases items.len(),
{
    if items.len() == 0 {
        Seq::empty()
    } else {
        let r = dedup_seq(items.drop_last(), same);
        if r.len() > 0 && answers2(same, r.last(), items.last()) {
            r
        } else {
            r.push(items.last())
        }
    }
}

/// Keeps each entry of `items` unless `same(last kept, entry)` holds.
pub fn dedup_consecutive<T: Copy, F: Fn(T, T) -> bool>(items: &[T], same: F) -> (out: Vec<T>)
    requires
        functional2(same, items@),
    ensures
        out@ == dedup_seq(items@, same),
{
    let mut out: Vec<T> = Vec::new();
    let mut i: usize = 0;
    while i < items.len()
        invariant
            i <= items@.len(),
            functional2(same, items@),
            out@ == dedup_seq(items@.take(i as int), same),
        decreases items@.len() - i,
    {
        proof {
            assert(items@.take(i + 1).drop_last() =~= items@.take(i as int));
        }
        let x = items[i];
        let n = out.len();
        if n == 0 {
            out.push(x);
        } else {
            let last = out[n - 1];
            proof {
                lemma_dedup_laws(items@.take(i as int), same);
                assert(items@.take(i as int).contains(last));
                let w = choose|w: int| 0 <= w < i && items@.take(i as int)[w] == last;
                assert(items@[w] == last);
            }
            let answer = same(last, x);
            if !answer {
                out.push(x);
            }
        }
        i = i + 1;
    }
    proof {
        assert(items@.take(items@.len() as int) =~= items@);
    }
    out
}

/// `items` with its last entry dropped for as long as there are at least
/// two entries and the caller calls the first the same as the last.
pub open spec fn trim_seq<T, F: Fn(T, T) -> bool>(items: Seq<T>, same: F) -> Seq<T>
    decreases items.len(),
{
    if items.len() > 1 && answers2(same, items[0], items.last()) {
        trim_seq(items.drop_last(), same)
    } else {
        items
    }
}

/// Drops trailing entries that repeat the first, keeping at least one.
pub fn trim_closing_repeats<T: Copy, F: Fn(T, T) -> bool>(items: &mut Vec<T>, same: F)
    requires
        functional2(same, old(items)@),
    ensures
        final(items)@ == trim_seq(old(items)@, same),
{
    let ghost target = trim_seq(items@, same);
    let ghost original = items@;
    while items.len() > 1 && same(items[0], items[items.len() - 1])
        invariant
            functional2(same, original),
            items@.len() <= original.len(),
            items@ == original.take(items@.len() as int),
            trim_seq(items@, same) == target,
        decreases items@.len(),
    {
        items.pop();
        proof {
            assert(items@ =~= original.take(items@.len() as int));
        }
    }
    proof {
        if items@.len() > 1 {
            assert(!answers2(same, items@[0], items@.last()));
        }
    }
}

/// `coords` with its first entry appended when the caller does not call the
/// first and last entries the same; empty input stays empty.
pub open spec fn closed_seq<T, F: Fn(T, T) -> bool>(coords: Seq<T>, same: F) -> Seq<T> {
    if coords.len() > 0 && !answers2(same, coords[0], coords.last()) {
        coords.push(coords[0])
    } else {
        coords
    }
}

/// Closes a ring: appends the first coordinate when the last one differs
/// from it.
pub fn close_coords<T: Copy, F: Fn(T, T) -> bool>(coords: &mut Vec<T>, same: F)
    requires
        functional2(same, old(coords)@),
    ensures
        final(coords)@ == closed_seq(old(coords)@, same),
{
    let n = coords.len();
    if n > 0 {
        let first = coords[0];
        let last = coords[n - 1];
        if !same(first, last) {
            coords.push(first);
        }
    }
}

/// The index a scan of `0..n` settles on when it starts at 0 and moves to
/// each later index `i` for which `replaces(best, i)` holds.
pub open spec fn best_upto<F: Fn(usize, usize) -> bool>(replaces: F, k: nat) -> int
    decreases k,
{
    if k <= 1 {
        0
    } else {
        let b = best_upto(replaces, (k - 1) as nat);
        if answers_at(replaces, b, k - 1) {
            k - 1
        } else {
            b
        }
    }
}

/// Scans indices `0..n` and returns the one it settles on: it starts at 0
/// and moves to each later index `i` for which `replaces(current, i)`
/// holds.
pub fn best_index<F: Fn(usize, usize) -> bool>(n: usize, replaces: F) -> (best: usize)
    requires
        n >= 1,
        functional_at(replaces, n as nat, n as nat),
    ensures
        best == best_upto(replaces, n as nat),
        best < n,
{
    let mut best: usize = 0;
    let mut i: usize = 1;
    while i < n
        invariant
            1 <= i <= n,
            functional_at(replaces, n as nat, n as nat),
            best == best_upto(replaces, i as nat),
            best < i,
        decreases n - i,
    {
        let answer = replaces(best, i);
        if answer {
            best = i;
        }
        i = i + 1;
    }
    best
}

/// `items` rotated left by `k`: the entries from `k` on, then the first `k`.
pub open spec fn rotated<T>(items: Seq<T>, k: int) -> Seq<T> {
    items.subrange(k, items.len() as int) + items.subrange(0, k)
}

/// Rotates `items` left by `k` positions.
pub fn rotate_left<T: Copy>(items: &[T], k: usize) -> (out: Vec<T>)
    requires
        k <= items@.len(),
    ensures
        out@ == rotated(items@, k as int),
{
    let n = items.len();
    let mut out: Vec<T> = Vec::new();
    let mut i: usize = k;
    while i < n
        invariant
            k <= i <= n,
            n == items@.len(),
            out@ == items@.subrange(k as int, i as int),
        decreases n - i,
    {
        out.push(items[i]);
        proof {
            assert(out@ =~= items@.subrange(k as int, i + 1));
        }
        i = i + 1;
    }
    let mut j: usize = 0;
    while j < k
        invariant
            j <= k <= n,
            n == items@.len(),
            out@ == items@.subrange(k as int, n as int) + items@.subrange(0, j as int),
        decreases k - j,
    {
        out.push(items[j]);
        proof {
            assert(out@ =~= items@.subrange(k as int, n as int) + items@.subrange(0, j + 1));
        }
        j = j + 1;
    }
    out
}

/// The index `k` steps back from `start` on the cycle of indices `0..=n`,
/// where a step goes from `i` to `i - 1`, and from 0 to `n`; meant for
/// `0 <= k <= n + 1`.
pub open spec fn back_at(n: int, start: int, k: int) -> int {
    if k <= start {
        start - k
    } else {
        n + 1 + start - k
    }
}

/// The index `k` steps forward from `start`, where a step goes from `i` to
/// `(i + 1) % n`; meant for `k >= 1`.
pub open spec fn forward_at(n: int, start: int, k: int) -> int {
    (start + k) % n
}

/// A walk that started at `start` stops at `i` when the caller's test accepts
/// `i` or when it is back at `start`.
pub open spec fn stops_at<F: Fn(usize) -> bool>(differs: F, start: int, i: int) -> bool {
    answers1(differs, i) || i == start
}

/// Walks back from `start` over the cycle `0..=n` and returns the first index
/// that the test `differs` accepts, or `start` itself once the walk has gone
/// all the way round.
pub fn previous_distinct_index<F: Fn(usize) -> bool>(n: usize, start: usize, differs: F) -> (r: usize)
    requires
        start <= n,
        functional1(differs, (n + 1) as nat),
    ensures
        r <= n,
        exists|k: int|
            1 <= k <= n + 1 && r == back_at(n as int, start as int, k) && stops_at(differs, start as int, r as int)
                && forall|j: int|
                1 <= j < k ==> !stops_at(differs, start as int, #[trigger] back_at(n as int, start as int, j)),
{
    let mut i = start;
    let ghost mut k: int = 0;
    loop
        invariant
            start <= n,
            functional1(differs, (n + 1) as nat),
            0 <= k <= n,
            i <= n,
            i == back_at(n as int, start as int, k),
            forall|j: int| 1 <= j <= k ==> !stops_at(differs, start as int, #[trigger] back_at(n as int, start as int, j)),
        decreases n + 1 - k,
    {
        i = if i == 0 {
            n
        } else {
            i - 1
        };
        proof {
            k = k + 1;
        }
        let accepted = differs(i);
        if accepted || i == start {
            proof {
                assert(stops_at(differs, start as int, i as int));
                assert(1 <= k <= n + 1 && i == back_at(n as int, start as int, k));
            }
            return i;
        }
        proof {
            assert(!stops_at(differs, start as int, back_at(n as int, start as int, k)));
        }
    }
}

/// Walks forward from `start`, stepping from `i` to `(i + 1) % n`, and
/// returns the first index that the test `differs` accepts, or `start`
/// itself once the walk is back there.
pub fn next_distinct_index<F: Fn(usize) -> bool>(n: usize, start: usize, differs: F) -> (r: usize)
    requires
        1 <= n < usize::MAX,
        start <= n,
        functional1(differs, n as nat),
        start < n || exists|j: int| 0 <= j < n && #[trigger] answers1(differs, j),
    ensures
        r < n,
        exists|k: int|
            1 <= k <= n && r == forward_at(n as int, start as int, k) && stops_at(differs, start as int, r as int)
                && forall|j: int|
                1 <= j < k ==> !stops_at(differs, start as int, #[trigger] forward_at(n as int, start as int, j)),
{
    let mut i = start;
    let ghost mut k: int = 0;
    loop
        invariant
            1 <= n < usize::MAX,
            start <= n,
            functional1(differs, n as nat),
            start < n || exists|j: int| 0 <= j < n && #[trigger] answers1(differs, j),
            0 <= k < n,
            i <= n,
            k == 0 ==> i == start,
            k > 0 ==> i == forward_at(n as int, start as int, k),
            forall|j: int|
                1 <= j <= k ==> !stops_at(differs, start as int, #[trigger] forward_at(n as int, start as int, j)),
        decreases n - k,
    {
        proof {
            if k > 0 {
                vstd::arithmetic::div_mod::lemma_add_mod_noop_right(1, start + k, n as int);
            }
        }
        i = (i + 1) % n;
        proof {
            k = k + 1;
            assert(i == forward_at(n as int, start as int, k));
        }
        let accepted = differs(i);
        if accepted || i == start {
            proof {
                assert(stops_at(differs, start as int, i as int));
            }
            return i;
        }
        proof {
            assert(!stops_at(differs, start as int, forward_at(n as int, start as int, k)));
            if k == n {
                if start < n {
                    vstd::arithmetic::div_mod::lemma_mod_add_multiples_vanish(start as int, n as int);
                    vstd::arithmetic::div_mod::lemma_small_mod(start as nat, n as nat);
                    assert(forward_at(n as int, start as int, k) == start);
                } else {
                    let w = choose|j: int| 0 <= j < n && #[trigger] answers1(differs, j);
                    let kw = if w == 0 { n as int } else { w };
                    vstd::arithmetic::div_mod::lemma_mod_add_multiples_vanish(kw, n as int);
                    if w == 0 {
                        vstd::arithmetic::div_mod::lemma_mod_self_0(n as int);
                    } else {
                        vstd::arithmetic::div_mod::lemma_small_mod(w as nat, n as nat);
                    }
                    assert(forward_at(n as int, start as int, kw) == w);
                    assert(!stops_at(differs, start as int, forward_at(n as int, start as int, kw)));
                }
            }
        }
    }
}

/// The scan of `best_index` starts at index 0 and moves only when told to:
/// no index after the one it settles on replaces it; an index other than 0
/// is reached only from an earlier index that it replaces and that nothing
/// in between replaced; and when nothing replaces index 0 the scan stays
/// there.
pub proof fn lemma_best_index_scan<F: Fn(usize, usize) -> bool>(replaces: F, k: nat)
    requires
        k >= 1,
    ensures
        0 <= best_upto(replaces, k) < k,
        forall|i: int| best_upto(replaces, k) < i < k ==> !#[trigger] answers_at(replaces, best_upto(replaces, k), i),
        best_upto(replaces, k) > 0 ==> exists|j: int|
            0 <= j < best_upto(replaces, k) && #[trigger] answers_at(replaces, j, best_upto(replaces, k)) && forall|
                i: int,
            | j < i < best_upto(replaces, k) ==> !#[trigger] answers_at(replaces, j, i),
        (forall|i: int| 0 < i < k ==> !#[trigger] answers_at(replaces, 0, i)) ==> best_upto(replaces, k) == 0,
    decreases k,
{
    if k > 1 {
        let km = (k - 1) as nat;
        lemma_best_index_scan(replaces, km);
        let b = best_upto(replaces, km);
        if answers_at(replaces, b, k - 1) {
            assert(answers_at(replaces, b, best_upto(replaces, k)));
            if forall|i: int| 0 < i < k ==> !#[trigger] answers_at(replaces, 0, i) {
                assert(b == 0);
            }
        }
    }
}

/// Trimming keeps a prefix of at least one entry (of a non-empty input),
/// drops only entries that the comparison calls the same as the first, and
/// stops once the first and last entries differ; an input whose first and
/// last entries differ is left as it is.
pub proof fn lemma_trim_drops_repeats_of_first<T, F: Fn(T, T) -> bool>(items: Seq<T>, same: F)
    ensures
        trim_seq(items, same).len() <= items.len(),
        items.len() > 0 ==> trim_seq(items, same).len() >= 1,
        trim_seq(items, same) == items.take(trim_seq(items, same).len() as int),
        forall|j: int|
            trim_seq(items, same).len() <= j < items.len() ==> answers2(same, items[0], #[trigger] items[j]),
        trim_seq(items, same).len() > 1 ==> !answers2(
            same,
            trim_seq(items, same)[0],
            trim_seq(items, same).last(),
        ),
        items.len() <= 1 || !answers2(same, items[0], items.last()) ==> trim_seq(items, same) == items,
    decreases items.len(),
{
    if items.len() > 1 && answers2(same, items[0], items.last()) {
        let d = items.drop_last();
        lemma_trim_drops_repeats_of_first(d, same);
        assert(d[0] == items[0]);
        let r = trim_seq(d, same);
        assert(d.take(r.len() as int) =~= items.take(r.len() as int));
        assert forall|j: int| r.len() <= j < items.len() implies answers2(same, items[0], #[trigger] items[j]) by {
            if j < d.len() {
                assert(items[j] == d[j]);
            }
        }
    } else {
        assert(items.take(items.len() as int) =~= items);
    }
}

/// Dropping repeats drops an entry only when the comparison calls it the
/// same as the last entry kept before it, and keeps every entry that differs
/// from the last one kept; so an input in which no entry is the same as the
/// one before it comes back unchanged.
pub proof fn lemma_dedup_drops_only_repeats<T, F: Fn(T, T) -> bool>(items: Seq<T>, same: F)
    ensures
        (forall|i: int| 0 < i < items.len() ==> !answers2(same, items[i - 1], #[trigger] items[i])) ==> dedup_seq(
            items,
            same,
        ) == items,
        items.len() > 0 ==> ({
            let before = dedup_seq(items.drop_last(), same);
            dedup_seq(items, same) == if before.len() > 0 && answers2(same, before.last(), items.last()) {
                before
            } else {
                before.push(items.last())
            }
        }),
    decreases items.len(),
{
    if items.len() > 0 {
        let d = items.drop_last();
        lemma_dedup_drops_only_repeats(d, same);
        if forall|i: int| 0 < i < items.len() ==> !answers2(same, items[i - 1], #[trigger] items[i]) {
            assert forall|i: int| 0 < i < d.len() implies !answers2(same, d[i - 1], #[trigger] d[i]) by {
                assert(d[i] == items[i] && d[i - 1] == items[i - 1]);
            }
            assert(dedup_seq(d, same) == d);
            if d.len() > 0 {
                assert(!answers2(same, items[items.len() - 2], items[items.len() - 1]));
            }
            assert(d.push(items.last()) =~= items);
        }
    }
}

/// Closing a ring leaves it empty when it was empty; otherwise the result
/// starts with the input, has at most one more entry, and that entry is the
/// first, added exactly when the comparison calls the first and last
/// entries different.
pub proof fn lemma_close_adds_first<T, F: Fn(T, T) -> bool>(coords: Seq<T>, same: F)
    ensures
        coords.len() == 0 ==> closed_seq(coords, same) == coords,
        coords.len() > 0 ==> closed_seq(coords, same).take(coords.len() as int) == coords,
        coords.len() > 0 && answers2(same, coords[0], coords.last()) ==> closed_seq(coords, same) == coords,
        coords.len() > 0 && !answers2(same, coords[0], coords.last()) ==> closed_seq(coords, same).len()
            == coords.len() + 1 && closed_seq(coords, same).last() == coords[0],
{
    if coords.len() > 0 {
        assert(coords.push(coords[0]).take(coords.len() as int) =~= coords);
        assert(coords.take(coords.len() as int) =~= coords);
    }
}

/// The cyclic walks take one step at a time: backwards over `0..=n`, from
/// `i` to `i - 1` and from 0 to `n`; forwards, from `i` to `(i + 1) % n`.
pub proof fn lemma_cyclic_steps(n: int, start: int, k: int)
    requires
        0 <= start <= n,
        0 <= k <= n,
    ensures
        back_at(n, start, 0) == start,
        back_at(n, start, k + 1) == if back_at(n, start, k) == 0 {
            n
        } else {
            back_at(n, start, k) - 1
        },
        0 <= back_at(n, start, k) <= n,
        n >= 1 ==> forward_at(n, start, 1) == (start + 1) % n,
        n >= 1 && k >= 1 ==> forward_at(n, start, k + 1) == (forward_at(n, start, k) + 1) % n,
{
    if n >= 1 && k >= 1 {
        vstd::arithmetic::div_mod::lemma_add_mod_noop_right(1, start + k, n);
    }
}

/// Dropping repeats keeps the first entry and never keeps two entries in a
/// row that the comparison calls the same; every kept entry comes from the
/// input.
pub proof fn lemma_dedup_laws<T, F: Fn(T, T) -> bool>(items: Seq<T>, same: F)
    ensures
        items.len() > 0 ==> dedup_seq(items, same).len() > 0 && dedup_seq(items, same)[0] == items[0],
        dedup_seq(items, same).len() <= items.len(),
        forall|i: int|
            0 <= i < dedup_seq(items, same).len() - 1 ==> !answers2(
                same,
                dedup_seq(items, same)[i],
                #[trigger] dedup_seq(items, same)[i + 1],
            ),
        forall|i: int| 0 <= i < dedup_seq(items, same).len() ==> items.contains(#[trigger] dedup_seq(items, same)[i]),
    decreases items.len(),
{
    if items.len() > 0 {
        let d = items.drop_last();
        lemma_dedup_laws(d, same);
        let r = dedup_seq(d, same);
        if d.len() == 0 {
            assert(r.len() == 0);
        } else {
            assert(d[0] == items[0]);
        }
        assert forall|i: int| 0 <= i < dedup_seq(items, same).len() implies items.contains(#[trigger] dedup_seq(items, same)[i]) by {
            if i < r.len() {
                assert(d.contains(r[i]));
                let w = choose|w: int| 0 <= w < d.len() && d[w] == r[i];
                assert(items[w] == r[i]);
            } else {
                assert(items[items.len() - 1] == items.last());
            }
        }
    }
}

/// A rotated sequence is the input read from position `k` cyclically.
pub proof fn lemma_rotated_index<T>(items: Seq<T>, k: int)
    requires
        0 <= k <= items.len(),
    ensures
        rotated(items, k).len() == items.len(),
        forall|i: int|
            0 <= i < items.len() ==> #[trigger] rotated(items, k)[i] == items[(i + k) % (items.len() as int)],
{
    let n = items.len() as int;
    assert forall|i: int| 0 <= i < n implies #[trigger] rotated(items, k)[i] == items[(i + k) % n] by {
        if i < n - k {
            assert((i + k) % n == i + k) by {
                vstd::arithmetic::div_mod::lemma_small_mod((i + k) as nat, n as nat);
            }
        } else {
            assert((i + k) % n == i + k - n) by {
                vstd::arithmetic::div_mod::lemma_mod_sub_multiples_vanish(i + k, n);
                vstd::arithmetic::div_mod::lemma_small_mod((i + k - n) as nat, n as nat);
            }
        }
    }
}

} // verus!
