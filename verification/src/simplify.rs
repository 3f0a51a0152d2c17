//! Vertex deletion passes of buffer-input simplification.
//!
//! Before a ring or line is offset, shallow concavities are removed: a
//! vertex is deleted when the caller's test says that the turn at it, taken
//! between its nearest kept neighbours, is shallow enough. The geometric
//! test is the caller's; this module owns which vertices are tested, in what
//! order, how deletions feed back into later tests, and when the passes stop.

use vstd::prelude::*;

verus! {

/// The caller's deletion test answered `true` for the triple `(a, b, c)`.
pub open spec fn answers3<F: Fn(usize, usize, usize) -> bool>(f: F, a: int, b: int, c: int) -> bool {
    call_ensures(f, (a as usize, b as usize, c as usize), true)
}

/// The test can be called on every triple of indices below `n` and gives
/// one answer per triple.
pub open spec fn functional3<F: Fn(usize, usize, usize) -> bool>(f: F, n: nat) -> bool {
    &&& forall|a: usize, b: usize, c: usize| a < n && b < n && c < n ==> call_requires(f, (a, b, c))
    &&& forall|a: usize, b: usize, c: usize|
        a < n && b < n && c < n ==> !(#[trigger] call_ensures(f, (a, b, c), true) && call_ensures(
            f,
            (a, b, c),
            false,
        ))
}

/// The caller's sampling test answered `true` at index `i`.
pub open spec fn answers1<F: Fn(usize) -> bool>(f: F, i: int) -> bool {
    call_ensures(f, (i as usize,), true)
}

/// The test can be called on every index below `n` and gives one answer
/// per index.
pub open spec fn functional1<F: Fn(usize) -> bool>(f: F, n: nat) -> bool {
    &&& forall|i: usize| i < n ==> call_requires(f, (i,))
    &&& forall|i: usize| i < n ==> !(#[trigger] call_ensures(f, (i,), true) && call_ensures(f, (i,), false))
}

/// The first index after `index` that is past the end or not deleted.
pub open spec fn next_live(mask: Seq<bool>, index: int) -> int
    decreases mask.len() - index,
{
    if index + 1 >= mask.len() {
        index + 1
    } else if !mask[index + 1] {
        index + 1
    } else {
        next_live(mask, index + 1)
    }
}

/// `next_live` lies after `index`, every index strictly between is deleted,
/// and the result is past the end or not deleted.
pub proof fn lemma_next_live(mask: Seq<bool>, index: int)
    ensures
        next_live(mask, index) > index,
        next_live(mask, index) >= mask.len() || !mask[next_live(mask, index)],
        forall|j: int| index < j < next_live(mask, index) ==> mask[j],
        next_live(mask, index) <= if index + 1 > mask.len() { index + 1 } else { mask.len() as int },
    decreases mask.len() - index,
{
    if index + 1 >= mask.len() {
    } else if !mask[index + 1] {
    } else {
        lemma_next_live(mask, index + 1);
    }
}

/// The number of entries that are not deleted.
pub open spec fn count_live(mask: Seq<bool>) -> nat
    decreases mask.len(),
{
    if mask.len() == 0 {
        0
    } else {
        count_live(mask.drop_last()) + if mask.last() { 0nat } else { 1nat }
    }
}

/// Deleting an entry that was live lowers the live count by one.
pub proof fn lemma_count_live_delete(mask: Seq<bool>, i: int)
    requires
        0 <= i < mask.len(),
        !mask[i],
    ensures
        count_live(mask.update(i, true)) + 1 == count_live(mask),
    decreases mask.len(),
{
    let m2 = mask.update(i, true);
    if i == mask.len() - 1 {
        assert(m2.drop_last() =~= mask.drop_last());
    } else {
        assert(m2.drop_last() =~= mask.drop_last().update(i, true));
        lemma_count_live_delete(mask.drop_last(), i);
    }
}

/// One deletion pass from position `index`: the mask and the changed flag
/// that it ends with.
pub open spec fn pass_from<F: Fn(usize, usize, usize) -> bool>(
    f: F,
    mask: Seq<bool>,
    index: int,
    changed: bool,
) -> (Seq<bool>, bool)
    decreases mask.len() - index,
{
    let mid = next_live(mask, index);
    let last = next_live(mask, mid);
    if 0 <= index && last < mask.len() {
        proof {
            lemma_next_live(mask, index);
            lemma_next_live(mask, mid);
            assert(mask.update(mid, true).len() == mask.len());
        }
        if answers3(f, index, mid, last) {
            pass_from(f, mask.update(mid, true), last, true)
        } else {
            pass_from(f, mask, mid, changed)
        }
    } else {
        (mask, changed)
    }
}

/// A pass keeps the length, keeps every deletion, never touches index 0, 1
/// or the last index when started at 1 or later, and reports a change
/// exactly when it deleted a live entry.
pub proof fn lemma_pass_from<F: Fn(usize, usize, usize) -> bool>(
    f: F,
    mask: Seq<bool>,
    index: int,
    changed: bool,
)
    requires
        index >= 1,
    ensures
        pass_from(f, mask, index, changed).0.len() == mask.len(),
        forall|j: int| 0 <= j < mask.len() && mask[j] ==> pass_from(f, mask, index, changed).0[j],
        forall|j: int|
            0 <= j <= index && j < mask.len() ==> pass_from(f, mask, index, changed).0[j] == mask[j],
        mask.len() > 0 ==> pass_from(f, mask, index, changed).0[mask.len() - 1] == mask[mask.len() - 1],
        pass_from(f, mask, index, changed).1 == (changed || count_live(
            pass_from(f, mask, index, changed).0,
        ) < count_live(mask)),
        count_live(pass_from(f, mask, index, changed).0) <= count_live(mask),
    decreases mask.len() - index,
{
    let mid = next_live(mask, index);
    let last = next_live(mask, mid);
    lemma_next_live(mask, index);
    lemma_next_live(mask, mid);
    if last < mask.len() {
        if answers3(f, index, mid, last) {
            let m2 = mask.update(mid, true);
            assert(m2.len() == mask.len());
            lemma_count_live_delete(mask, mid);
            lemma_pass_from(f, m2, last, true);
            assert forall|j: int| 0 <= j < mask.len() && mask[j] implies pass_from(f, mask, index, changed).0[j] by {
                assert(m2[j]);
            }
            assert forall|j: int| 0 <= j <= index && j < mask.len() implies pass_from(f, mask, index, changed).0[j] == mask[j] by {
                assert(m2[j] == mask[j]);
            }
        } else {
            lemma_pass_from(f, mask, mid, changed);
        }
    }
}

/// The mask after passes are repeated until one of them changes nothing.
pub open spec fn simplify_from<F: Fn(usize, usize, usize) -> bool>(f: F, mask: Seq<bool>) -> Seq<bool>
    decreases count_live(mask),
{
    let r = pass_from(f, mask, 1, false);
    if r.1 {
        proof {
            lemma_pass_from(f, mask, 1, false);
        }
        simplify_from(f, r.0)
    } else {
        r.0
    }
}

/// The all-live mask of length `n`.
pub open spec fn all_live(n: nat) -> Seq<bool> {
    Seq::new(n, |i: int| false)
}

/// The entries of `items` whose mask entry is `false`, in order.
pub open spec fn kept<T>(items: Seq<T>, mask: Seq<bool>) -> Seq<T>
    decreases items.len(),
{
    if items.len() == 0 {
        Seq::empty()
    } else {
        let rest = kept(items.drop_last(), mask.take(items.len() - 1));
        if mask[items.len() - 1] {
            rest
        } else {
            rest.push(items.last())
        }
    }
}

/// Returns the next index after `index` that is not marked deleted, or the
/// first index past the end.
pub fn find_next_non_deleted_index(index: usize, is_deleted: &[bool]) -> (next: usize)
    requires
        index < usize::MAX,
    ensures
        next as int == next_live(is_deleted@, index as int),
        next > index,
        next >= is_deleted@.len() || !is_deleted@[next as int],
        forall|j: int| index < j < next ==> is_deleted@[j],
        next <= index + 1 || next <= is_deleted@.len(),
{
    proof {
        lemma_next_live(is_deleted@, index as int);
    }
    let mut next = index + 1;
    while next < is_deleted.len() && is_deleted[next]
        invariant
            index < next,
            next <= is_deleted@.len() || next == index + 1,
            next_live(is_deleted@, index as int) == next_live(is_deleted@, next - 1),
        decreases is_deleted@.len() - next,
    {
        next = next + 1;
    }
    next
}

/// One pass over the vertices: starting with the vertex at index 1, each
/// live vertex between two live neighbours is offered to `deletable` as the
/// triple (previous, vertex, next); a vertex the test accepts is marked
/// deleted and the walk resumes from its next neighbour. Returns whether
/// any vertex was deleted.
pub fn delete_shallow_concavities<F: Fn(usize, usize, usize) -> bool>(
    is_deleted: &mut [bool],
    deletable: &F,
) -> (changed: bool)
    requires
        functional3(*deletable, old(is_deleted)@.len()),
        old(is_deleted)@.len() < usize::MAX,
    ensures
        (final(is_deleted)@, changed) == pass_from(*deletable, old(is_deleted)@, 1, false),
{
    let len = is_deleted.len();
    let ghost f = *deletable;
    let ghost target = pass_from(f, is_deleted@, 1, false);
    let mut index: usize = 1;
    let mut mid_index = find_next_non_deleted_index(index, is_deleted);
    let mut last_index = find_next_non_deleted_index(mid_index, is_deleted);
    let mut changed = false;
    proof {
        lemma_next_live(is_deleted@, index as int);
        lemma_next_live(is_deleted@, mid_index as int);
    }
    while last_index < len
        invariant
            f == *deletable,
            functional3(f, len as nat),
            len == is_deleted@.len(),
            len < usize::MAX,
            1 <= index,
            mid_index as int == next_live(is_deleted@, index as int),
            last_index as int == next_live(is_deleted@, mid_index as int),
            index < len || index == 1,
            index < mid_index,
            pass_from(f, is_deleted@, index as int, changed) == target,
        decreases len - index,
    {
        proof {
            lemma_next_live(is_deleted@, index as int);
            lemma_next_live(is_deleted@, mid_index as int);
        }
        let answer = deletable(index, mid_index, last_index);
        proof {
            assert(answer == answers3(f, index as int, mid_index as int, last_index as int));
        }
        if answer {
            is_deleted[mid_index] = true;
            changed = true;
            index = last_index;
        } else {
            index = mid_index;
        }
        mid_index = find_next_non_deleted_index(index, is_deleted);
        last_index = find_next_non_deleted_index(mid_index, is_deleted);
    }
    proof {
        lemma_next_live(is_deleted@, index as int);
        lemma_next_live(is_deleted@, mid_index as int);
    }
    changed
}

/// Repeats deletion passes over a fresh all-live mask until a pass deletes
/// nothing, and returns the vertices that remain, in their original order.
pub fn simplify_buffer_input_line<T: Copy, F: Fn(usize, usize, usize) -> bool>(
    input: &[T],
    deletable: F,
) -> (kept_points: Vec<T>)
    requires
        functional3(deletable, input@.len()),
        input@.len() < usize::MAX,
    ensures
        kept_points@ == kept(input@, simplify_from(deletable, all_live(input@.len()))),
{
    let len = input.len();
    let mut is_deleted: Vec<bool> = Vec::new();
    let mut i: usize = 0;
    while i < len
        invariant
            i <= len,
            len == input@.len(),
            is_deleted@ =~= all_live(i as nat),
        decreases len - i,
    {
        is_deleted.push(false);
        i = i + 1;
    }
    let ghost target = simplify_from(deletable, is_deleted@);
    loop
        invariant_except_break
            simplify_from(deletable, is_deleted@) == target,
        invariant
            functional3(deletable, len as nat),
            is_deleted@.len() == len,
            len < usize::MAX,
        ensures
            is_deleted@ == target,
            is_deleted@.len() == len,
        decreases count_live(is_deleted@),
    {
        let ghost before = is_deleted@;
        let changed = delete_shallow_concavities(is_deleted.as_mut_slice(), &deletable);
        proof {
            lemma_pass_from(deletable, before, 1, false);
        }
        if !changed {
            assert(simplify_from(deletable, before) == is_deleted@);
            break;
        }
    }
    let mut out: Vec<T> = Vec::new();
    let mut j: usize = 0;
    while j < len
        invariant
            j <= len,
            len == input@.len(),
            is_deleted@.len() == len,
            out@ == kept(input@.take(j as int), is_deleted@.take(j as int)),
        decreases len - j,
    {
        proof {
            assert(input@.take(j + 1).drop_last() =~= input@.take(j as int));
            assert(is_deleted@.take(j + 1).take(j as int) =~= is_deleted@.take(j as int));
        }
        if !is_deleted[j] {
            out.push(input[j]);
        }
        j = j + 1;
    }
    proof {
        assert(input@.take(len as int) =~= input@);
        assert(is_deleted@.take(len as int) =~= is_deleted@);
    }
    out
}

/// Whether the far-test fails at every sampled index: indices from `i0`
/// up to but excluding `i2`, stepping by a tenth of the span (at least one).
pub fn is_shallow_sampled<F: Fn(usize) -> bool>(i0: usize, i2: usize, too_far: F) -> (shallow: bool)
    requires
        i0 <= i2,
        functional1(too_far, i2 as nat),
    ensures
        shallow == (forall|k: int|
            0 <= k && #[trigger] sampled(i0 as int, i2 as int, k) < i2 ==> !answers1(
                too_far,
                sampled(i0 as int, i2 as int, k),
            )),
{
    let mut increment = (i2 - i0) / 10;
    if increment == 0 {
        increment = 1;
    }
    let ghost step = sample_step(i0 as int, i2 as int);
    let mut i = i0;
    let ghost mut k: int = 0;
    while i < i2
        invariant
            step == increment,
            step == sample_step(i0 as int, i2 as int),
            step >= 1,
            functional1(too_far, i2 as nat),
            i == sampled(i0 as int, i2 as int, k),
            0 <= k,
            i0 <= i,
            forall|k2: int| 0 <= k2 < k ==> !answers1(too_far, #[trigger] sampled(i0 as int, i2 as int, k2)),
        decreases i2 - i,
    {
        let far = too_far(i);
        if far {
            return false;
        }
        if i2 - i <= increment {
            proof {
                assert forall|k2: int| 0 <= k2 && #[trigger] sampled(i0 as int, i2 as int, k2) < i2 implies !answers1(
                    too_far,
                    sampled(i0 as int, i2 as int, k2),
                ) by {
                    if k2 > k {
                        lemma_sampled_grows(i0 as int, i2 as int, k + 1, k2);
                        lemma_sampled_next(i0 as int, i2 as int, k);
                    }
                }
            }
            return true;
        }
        i = i + increment;
        proof {
            lemma_sampled_next(i0 as int, i2 as int, k);
            k = k + 1;
        }
    }
    proof {
        assert forall|k2: int| 0 <= k2 && #[trigger] sampled(i0 as int, i2 as int, k2) < i2 implies !answers1(
            too_far,
            sampled(i0 as int, i2 as int, k2),
        ) by {
            if k2 >= k {
                lemma_sampled_grows(i0 as int, i2 as int, k, k2);
            }
        }
    }
    true
}

/// The sampling stride: a tenth of the span `i2 - i0`, but at least one.
pub open spec fn sample_step(i0: int, i2: int) -> int {
    if (i2 - i0) / 10 == 0 {
        1
    } else {
        (i2 - i0) / 10
    }
}

/// The `k`-th sampled index.
pub open spec fn sampled(i0: int, i2: int, k: int) -> int {
    i0 + k * sample_step(i0, i2)
}

proof fn lemma_sampled_next(i0: int, i2: int, k: int)
    requires
        sample_step(i0, i2) >= 1,
    ensures
        sampled(i0, i2, k + 1) == sampled(i0, i2, k) + sample_step(i0, i2),
{
    let step = sample_step(i0, i2);
    assert((k + 1) * step == k * step + step) by (nonlinear_arith);
}

proof fn lemma_sampled_grows(i0: int, i2: int, k1: int, k2: int)
    requires
        sample_step(i0, i2) >= 1,
        k1 <= k2,
    ensures
        sampled(i0, i2, k1) <= sampled(i0, i2, k2),
{
    let step = sample_step(i0, i2);
    assert(k1 * step <= k2 * step) by (nonlinear_arith)
        requires
            k1 <= k2,
            step >= 1,
    ;
}

/// Simplification keeps the first two vertices and the last one: the
/// deletion walk starts at index 1 and only ever deletes a vertex that has
/// a live neighbour after it.
pub proof fn lemma_simplify_keeps_ends<F: Fn(usize, usize, usize) -> bool>(f: F, mask: Seq<bool>)
    ensures
        simplify_from(f, mask).len() == mask.len(),
        forall|j: int| 0 <= j <= 1 && j < mask.len() ==> simplify_from(f, mask)[j] == mask[j],
        mask.len() > 0 ==> simplify_from(f, mask)[mask.len() - 1] == mask[mask.len() - 1],
        forall|j: int| 0 <= j < mask.len() && mask[j] ==> simplify_from(f, mask)[j],
    decreases count_live(mask),
{
    let r = pass_from(f, mask, 1, false);
    lemma_pass_from(f, mask, 1, false);
    if r.1 {
        lemma_simplify_keeps_ends(f, r.0);
    }
}

/// After simplification no further pass deletes anything: the result is a
/// fixed point of the deletion pass.
pub proof fn lemma_simplify_is_stable<F: Fn(usize, usize, usize) -> bool>(f: F, mask: Seq<bool>)
    ensures
        pass_from(f, simplify_from(f, mask), 1, false) == (simplify_from(f, mask), false),
    decreases count_live(mask),
{
    let r = pass_from(f, mask, 1, false);
    lemma_pass_from(f, mask, 1, false);
    if r.1 {
        lemma_simplify_is_stable(f, r.0);
    } else {
        lemma_pass_unchanged(f, mask, 1);
    }
}

/// A pass that reports no change leaves the mask as it was.
pub proof fn lemma_pass_unchanged<F: Fn(usize, usize, usize) -> bool>(f: F, mask: Seq<bool>, index: int)
    requires
        index >= 1,
        !pass_from(f, mask, index, false).1,
    ensures
        pass_from(f, mask, index, false).0 == mask,
    decreases mask.len() - index,
{
    let mid = next_live(mask, index);
    let last = next_live(mask, mid);
    lemma_next_live(mask, index);
    lemma_next_live(mask, mid);
    if last < mask.len() {
        if answers3(f, index, mid, last) {
            assert(mask.update(mid, true).len() == mask.len());
            lemma_pass_from(f, mask.update(mid, true), last, true);
        } else {
            lemma_pass_unchanged(f, mask, mid);
        }
    }
}

/// `a`, `b` and `c` are three live entries of `mask`, in this order, with
/// every entry between them deleted.
pub open spec fn live_triple(mask: Seq<bool>, a: int, b: int, c: int) -> bool {
    &&& 0 <= a < b < c < mask.len()
    &&& !mask[a] && !mask[b] && !mask[c]
    &&& forall|j: int| a < j < b ==> mask[j]
    &&& forall|j: int| b < j < c ==> mask[j]
}

/// A pass from `index` that deletes nothing has asked about, and been
/// refused, every triple of consecutive live entries from `index` on.
proof fn lemma_quiet_pass_rejects<F: Fn(usize, usize, usize) -> bool>(f: F, mask: Seq<bool>, index: int)
    requires
        index >= 1,
        !pass_from(f, mask, index, false).1,
    ensures
        forall|a: int, b: int, c: int|
            index <= a && #[trigger] live_triple(mask, a, b, c) ==> !answers3(f, a, b, c),
    decreases mask.len() - index,
{
    let mid = next_live(mask, index);
    let last = next_live(mask, mid);
    lemma_next_live(mask, index);
    lemma_next_live(mask, mid);
    if last < mask.len() {
        if answers3(f, index, mid, last) {
            assert(mask.update(mid, true).len() == mask.len());
            lemma_pass_from(f, mask.update(mid, true), last, true);
        } else {
            lemma_quiet_pass_rejects(f, mask, mid);
            assert forall|a: int, b: int, c: int| index <= a && #[trigger] live_triple(mask, a, b, c) implies !answers3(
                f,
                a,
                b,
                c,
            ) by {
                if a == index {
                    if b > mid {
                        assert(mask[mid]);
                    }
                    if b < mid {
                        assert(mask[b]);
                    }
                    if c > last {
                        assert(mask[last]);
                    }
                    if c < last {
                        assert(mask[c]);
                    }
                } else if a < mid {
                    assert(mask[a]);
                }
            }
        }
    } else {
        assert forall|a: int, b: int, c: int| index <= a && #[trigger] live_triple(mask, a, b, c) implies !answers3(
            f,
            a,
            b,
            c,
        ) by {
            if a == index {
                if b < mid {
                    assert(mask[b]);
                }
                if c < last {
                    assert(mask[c]);
                }
            } else if a < mid {
                assert(mask[a]);
            } else if a == mid {
                if c < last {
                    assert(mask[c]);
                }
            } else if a < last {
                assert(mask[a]);
            }
        }
    }
}

/// A pass deletes an entry only when the test accepted it together with a
/// live entry before it and one after it.
proof fn lemma_pass_deletes_accepted<F: Fn(usize, usize, usize) -> bool>(
    f: F,
    mask: Seq<bool>,
    index: int,
    changed: bool,
)
    requires
        index >= 1,
    ensures
        forall|j: int|
            0 <= j < mask.len() && !mask[j] && #[trigger] pass_from(f, mask, index, changed).0[j] ==> exists|
                a: int,
                c: int,
            | 0 <= a < j < c < mask.len() && answers3(f, a, j, c),
    decreases mask.len() - index,
{
    let mid = next_live(mask, index);
    let last = next_live(mask, mid);
    lemma_next_live(mask, index);
    lemma_next_live(mask, mid);
    lemma_pass_from(f, mask, index, changed);
    if last < mask.len() {
        if answers3(f, index, mid, last) {
            let m2 = mask.update(mid, true);
            assert(m2.len() == mask.len());
            assert(pass_from(f, mask, index, changed) == pass_from(f, m2, last, true));
            lemma_pass_deletes_accepted(f, m2, last, true);
            assert forall|j: int| 0 <= j < mask.len() && !mask[j] && #[trigger] pass_from(f, mask, index, changed).0[j] implies exists|
                a: int,
                c: int,
            | 0 <= a < j < c < mask.len() && answers3(f, a, j, c) by {
                if j == mid {
                    assert(0 <= index < mid < last < mask.len() && answers3(f, index, mid, last));
                } else {
                    assert(!m2[j]);
                    assert(pass_from(f, m2, last, true).0[j]);
                }
            }
        } else {
            assert(pass_from(f, mask, index, changed) == pass_from(f, mask, mid, changed));
            lemma_pass_deletes_accepted(f, mask, mid, changed);
        }
    } else {
        assert(pass_from(f, mask, index, changed) == (mask, changed));
    }
}

/// What simplification guarantees of the vertices it keeps and deletes:
/// it deletes a vertex only when the test accepted it between a vertex
/// before it and one after it, and among the vertices it keeps no three
/// consecutive ones, the first at index 1 or later, form a triple the test
/// accepts.
pub proof fn lemma_simplify_outcome<F: Fn(usize, usize, usize) -> bool>(f: F, mask: Seq<bool>)
    ensures
        forall|a: int, b: int, c: int|
            1 <= a && #[trigger] live_triple(simplify_from(f, mask), a, b, c) ==> !answers3(f, a, b, c),
        forall|j: int|
            0 <= j < mask.len() && !mask[j] && #[trigger] simplify_from(f, mask)[j] ==> exists|a: int, c: int|
                0 <= a < j < c < mask.len() && answers3(f, a, j, c),
    decreases count_live(mask),
{
    lemma_simplify_is_stable(f, mask);
    lemma_quiet_pass_rejects(f, simplify_from(f, mask), 1);
    let r = pass_from(f, mask, 1, false);
    lemma_pass_from(f, mask, 1, false);
    if r.1 {
        lemma_simplify_outcome(f, r.0);
        lemma_pass_deletes_accepted(f, mask, 1, false);
        assert forall|j: int| 0 <= j < mask.len() && !mask[j] && #[trigger] simplify_from(f, mask)[j] implies exists|
            a: int,
            c: int,
        | 0 <= a < j < c < mask.len() && answers3(f, a, j, c) by {
            if r.0[j] {
                assert(pass_from(f, mask, 1, false).0[j]);
            } else {
                assert(simplify_from(f, r.0)[j]);
            }
        }
    } else {
        lemma_pass_unchanged(f, mask, 1);
    }
}

/// Sampling always tests the first index of a non-empty span and never an
/// index outside it; a span shorter than ten is tested at every index.
pub proof fn lemma_sampling_covers(i0: int, i2: int)
    requires
        i0 <= i2,
    ensures
        sampled(i0, i2, 0) == i0,
        forall|k: int| 0 <= k ==> i0 <= #[trigger] sampled(i0, i2, k),
        i2 - i0 < 10 ==> forall|k: int| 0 <= k < i2 - i0 ==> #[trigger] sampled(i0, i2, k) == i0 + k,
        i2 - i0 >= 10 ==> sample_step(i0, i2) * 10 <= i2 - i0 < sample_step(i0, i2) * 10 + 10,
{
    assert forall|k: int| 0 <= k implies i0 <= #[trigger] sampled(i0, i2, k) by {
        assert(k * sample_step(i0, i2) >= 0) by (nonlinear_arith)
            requires
                k >= 0,
                sample_step(i0, i2) >= 1,
        ;
    }
}

} // verus!
