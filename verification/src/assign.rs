//! Assigning holes to the shells that contain them.
//!
//! When buffer curves are polygonized, each clockwise ring is a hole that
//! belongs to the smallest shell around it. Whether a hole lies inside a
//! shell, and how shell areas compare, are the caller's geometric tests;
//! this module owns the choice that follows from their answers.

use vstd::prelude::*;

use crate::order::strict_weak_order;
use crate::scan::{answers_at, functional_at};

verus! {

/// The shell that a scan of shells `0..k` picks for hole `h`: it starts with
/// none and takes each shell `s` that is eligible for the hole and, when a
/// shell is already picked, strictly smaller than it.
pub open spec fn smallest_eligible<C: Fn(usize, usize) -> bool, L: Fn(usize, usize) -> bool>(
    eligible: C,
    smaller: L,
    h: int,
    k: nat,
) -> Option<usize>
    decreases k,
{
    if k == 0 {
        None
    } else {
        let s = (k - 1) as int;
        let best = smallest_eligible(eligible, smaller, h, (k - 1) as nat);
        if answers_at(eligible, h, s) && (best is None || answers_at(smaller, s, best->0 as int)) {
            Some(s as usize)
        } else {
            best
        }
    }
}

/// Picks the shell for hole `h` among shells `0..n_shells`.
fn smallest_eligible_shell<C: Fn(usize, usize) -> bool, L: Fn(usize, usize) -> bool>(
    h: usize,
    n_shells: usize,
    eligible: &C,
    smaller: &L,
    n_holes: Ghost<nat>,
) -> (best: Option<usize>)
    requires
        h < n_holes@,
        functional_at(*eligible, n_holes@, n_shells as nat),
        functional_at(*smaller, n_shells as nat, n_shells as nat),
    ensures
        best == smallest_eligible(*eligible, *smaller, h as int, n_shells as nat),
        best matches Some(s) ==> s < n_shells,
{
    let mut best: Option<usize> = None;
    let mut s: usize = 0;
    while s < n_shells
        invariant
            s <= n_shells,
            h < n_holes@,
            functional_at(*eligible, n_holes@, n_shells as nat),
            functional_at(*smaller, n_shells as nat, n_shells as nat),
            best == smallest_eligible(*eligible, *smaller, h as int, s as nat),
            best matches Some(b) ==> b < s,
        decreases n_shells - s,
    {
        let inside = eligible(h, s);
        if inside {
            match best {
                None => {
                    best = Some(s);
                },
                Some(b) => {
                    let less = smaller(s, b);
                    if less {
                        best = Some(s);
                    }
                },
            }
        }
        s = s + 1;
    }
    best
}

/// For each hole `0..n_holes`, the shell it goes into: the first shell that
/// `eligible(hole, shell)` accepts, replaced by each later accepted shell
/// that `smaller(later, current)` calls strictly smaller; `None` when no
/// shell is accepted.
pub fn hole_targets<C: Fn(usize, usize) -> bool, L: Fn(usize, usize) -> bool>(
    n_holes: usize,
    n_shells: usize,
    eligible: C,
    smaller: L,
) -> (targets: Vec<Option<usize>>)
    requires
        functional_at(eligible, n_holes as nat, n_shells as nat),
        functional_at(smaller, n_shells as nat, n_shells as nat),
    ensures
        targets@.len() == n_holes,
        forall|h: int|
            0 <= h < n_holes ==> targets@[h] == smallest_eligible(eligible, smaller, h, n_shells as nat),
{
    let mut targets: Vec<Option<usize>> = Vec::new();
    let mut h: usize = 0;
    while h < n_holes
        invariant
            h <= n_holes,
            targets@.len() == h,
            functional_at(eligible, n_holes as nat, n_shells as nat),
            functional_at(smaller, n_shells as nat, n_shells as nat),
            forall|g: int| 0 <= g < h ==> targets@[g] == smallest_eligible(eligible, smaller, g, n_shells as nat),
        decreases n_holes - h,
    {
        let best = smallest_eligible_shell(h, n_shells, &eligible, &smaller, Ghost(n_holes as nat));
        targets.push(best);
        h = h + 1;
    }
    targets
}

/// The comparison `smaller` is a strict order on the shells `0..n`: no
/// shell is smaller than itself, and it is transitive.
pub open spec fn strict_order<L: Fn(usize, usize) -> bool>(smaller: L, n: nat) -> bool {
    &&& forall|s: int| 0 <= s < n ==> !#[trigger] answers_at(smaller, s, s)
    &&& forall|a: int, b: int, c: int|
        0 <= a < n && 0 <= b < n && 0 <= c < n && #[trigger] answers_at(smaller, a, b) && #[trigger] answers_at(
            smaller,
            b,
            c,
        ) ==> answers_at(smaller, a, c)
}

/// A hole gets a shell exactly when some shell is eligible for it, and the
/// shell it gets is eligible. When `smaller` is a strict order on the
/// shells, no eligible shell is strictly smaller than the chosen one.
pub proof fn lemma_smallest_eligible<C: Fn(usize, usize) -> bool, L: Fn(usize, usize) -> bool>(
    eligible: C,
    smaller: L,
    h: int,
    k: nat,
)
    requires
        k <= usize::MAX,
    ensures
        smallest_eligible(eligible, smaller, h, k) matches Some(c) ==> c < k && answers_at(eligible, h, c as int),
        smallest_eligible(eligible, smaller, h, k) is None <==> forall|s: int|
            0 <= s < k ==> !#[trigger] answers_at(eligible, h, s),
        strict_order(smaller, k) ==> (smallest_eligible(eligible, smaller, h, k) matches Some(c) ==> forall|
            t: int,
        | 0 <= t < k && #[trigger] answers_at(eligible, h, t) ==> !answers_at(smaller, t, c as int)),
    decreases k,
{
    if k > 0 {
        let km = (k - 1) as nat;
        lemma_smallest_eligible(eligible, smaller, h, km);
        let best = smallest_eligible(eligible, smaller, h, km);
        let s = km as int;
        if strict_order(smaller, k) {
            assert(strict_order(smaller, km));
            if let Some(c) = smallest_eligible(eligible, smaller, h, k) {
                assert forall|t: int| 0 <= t < k && #[trigger] answers_at(eligible, h, t) implies !answers_at(
                    smaller,
                    t,
                    c as int,
                ) by {
                    if c as int == s {
                        if t == s {
                            assert(!answers_at(smaller, s, s));
                        } else if best is Some {
                            let b = best->0;
                            if answers_at(smaller, t, s) {
                                assert(answers_at(smaller, s, b as int));
                                assert(answers_at(smaller, t, b as int));
                                assert(!answers_at(smaller, t, b as int));
                            }
                        } else {
                            assert(!answers_at(eligible, h, t));
                        }
                    } else {
                        assert(best == Some(c));
                        if t == s {
                            assert(!answers_at(smaller, s, c as int));
                        } else {
                            assert(!answers_at(smaller, t, c as int));
                        }
                    }
                }
            }
        }
        if smallest_eligible(eligible, smaller, h, k) is None {
            assert forall|t: int| 0 <= t < k implies !#[trigger] answers_at(eligible, h, t) by {
                if t < s {
                }
            }
        }
    }
}

/// Ties go to the first shell: when `smaller` is a strict weak order on the
/// shells, the chosen shell is strictly smaller than every eligible shell
/// that comes before it.
pub proof fn lemma_smallest_eligible_first_on_ties<C: Fn(usize, usize) -> bool, L: Fn(usize, usize) -> bool>(
    eligible: C,
    smaller: L,
    h: int,
    k: nat,
)
    requires
        k <= usize::MAX,
        strict_weak_order(smaller, k),
    ensures
        smallest_eligible(eligible, smaller, h, k) matches Some(c) ==> forall|t: int|
            0 <= t < c && #[trigger] answers_at(eligible, h, t) ==> answers_at(smaller, c as int, t),
    decreases k,
{
    if k > 0 {
        let km = (k - 1) as nat;
        assert(strict_weak_order(smaller, km));
        lemma_smallest_eligible_first_on_ties(eligible, smaller, h, km);
        lemma_smallest_eligible(eligible, smaller, h, km);
        let best = smallest_eligible(eligible, smaller, h, km);
        let s = km as int;
        assert(strict_order(smaller, km));
        if let Some(c) = smallest_eligible(eligible, smaller, h, k) {
            if c as int == s && best is Some {
                let b = best->0;
                assert(answers_at(smaller, s, b as int));
                assert forall|t: int| 0 <= t < c && #[trigger] answers_at(eligible, h, t) implies answers_at(
                    smaller,
                    c as int,
                    t,
                ) by {
                    assert(!answers_at(smaller, t, b as int));
                    assert(answers_at(smaller, s, t) || answers_at(smaller, t, b as int));
                }
            }
        }
    }
}

} // verus!
