//! Least solutions of systems of monotone set equations, reached by
//! round-robin iteration from empty sets.
//!
//! A system has `n` nodes with two sets each, `a` and `b`. At node `k`,
//! `a[k]` must equal `fa(k, a, b)` and `b[k]` must equal `fb(k, a, b)`. An
//! iteration pass visits the nodes in some order and at each node updates
//! `a[k]` and then `b[k]` from the current sets.
use vstd::prelude::*;
use vstd::set_lib::{lemma_len_subset, lemma_subset_equality};

verus! {

/// The right-hand side of one family of equations.
pub type Rule<T> = spec_fn(int, Seq<Set<T>>, Seq<Set<T>>) -> Set<T>;

/// Pointwise inclusion of two lists of sets of the same length.
pub open spec fn le<T>(x: Seq<Set<T>>, y: Seq<Set<T>>) -> bool {
    &&& x.len() == y.len()
    &&& forall|i: int| 0 <= i < x.len() ==> (#[trigger] x[i]).subset_of(y[i])
}

/// Every set of the list lies within `u`.
pub open spec fn within<T>(x: Seq<Set<T>>, u: Set<T>) -> bool {
    forall|i: int| 0 <= i < x.len() ==> (#[trigger] x[i]).subset_of(u)
}

/// The sets solve the system.
pub open spec fn is_solution<T>(fa: Rule<T>, fb: Rule<T>, n: nat, a: Seq<Set<T>>, b: Seq<Set<T>>) -> bool {
    &&& a.len() == n
    &&& b.len() == n
    &&& forall|k: int| #![trigger a[k]] #![trigger b[k]] 0 <= k < n ==> a[k] == fa(k, a, b) && b[k] == fb(k, a, b)
}

/// The sets are the least solution of the system: a solution included,
/// pointwise, in every solution.
pub open spec fn is_least_solution<T>(fa: Rule<T>, fb: Rule<T>, n: nat, a: Seq<Set<T>>, b: Seq<Set<T>>) -> bool {
    &&& is_solution(fa, fb, n, a, b)
    &&& forall|a2: Seq<Set<T>>, b2: Seq<Set<T>>|
        #[trigger] is_solution(fa, fb, n, a2, b2) ==> le(a, a2) && le(b, b2)
}

/// Each set is included in what its equation gives.
pub open spec fn post_fixed<T>(fa: Rule<T>, fb: Rule<T>, n: nat, a: Seq<Set<T>>, b: Seq<Set<T>>) -> bool {
    &&& a.len() == n
    &&& b.len() == n
    &&& forall|k: int| #![trigger a[k]] #![trigger b[k]] 0 <= k < n ==> a[k].subset_of(fa(k, a, b)) && b[k].subset_of(fb(k, a, b))
}

/// The sets are included, pointwise, in every solution.
pub open spec fn below_solutions<T>(fa: Rule<T>, fb: Rule<T>, n: nat, a: Seq<Set<T>>, b: Seq<Set<T>>) -> bool {
    forall|a2: Seq<Set<T>>, b2: Seq<Set<T>>|
        #[trigger] is_solution(fa, fb, n, a2, b2) ==> le(a, a2) && le(b, b2)
}

/// Larger sets give larger right-hand sides.
pub open spec fn monotone<T>(fa: Rule<T>, fb: Rule<T>, n: nat) -> bool {
    forall|k: int, a: Seq<Set<T>>, b: Seq<Set<T>>, a2: Seq<Set<T>>, b2: Seq<Set<T>>|
        #![trigger fa(k, a, b), fa(k, a2, b2)]
        #![trigger fb(k, a, b), fb(k, a2, b2)]
        0 <= k < n && a.len() == n && b.len() == n && le(a, a2) && le(b, b2) ==> fa(k, a, b).subset_of(
            fa(k, a2, b2),
        ) && fb(k, a, b).subset_of(fb(k, a2, b2))
}

/// Sets within `u` give right-hand sides within `u`.
pub open spec fn bounded<T>(fa: Rule<T>, fb: Rule<T>, n: nat, u: Set<T>) -> bool {
    forall|k: int, a: Seq<Set<T>>, b: Seq<Set<T>>|
        #![trigger fa(k, a, b)]
        #![trigger fb(k, a, b)]
        0 <= k < n && a.len() == n && b.len() == n && within(a, u) && within(b, u) ==> fa(k, a, b).subset_of(u)
            && fb(k, a, b).subset_of(u)
}

/// What the sets of the list still lack of `u`, counted.
pub open spec fn slack<T>(x: Seq<Set<T>>, u: Set<T>) -> int
    decreases x.len(),
{
    if x.len() == 0 {
        0
    } else {
        slack(x.drop_last(), u) + (u.len() - x.last().len())
    }
}

/// `n` empty sets.
pub open spec fn empties<T>(n: nat) -> Seq<Set<T>> {
    Seq::new(n, |i: int| Set::<T>::empty())
}

/// Empty sets are a post-fixed point below every solution.
pub proof fn lemma_start<T>(fa: Rule<T>, fb: Rule<T>, n: nat, u: Set<T>)
    ensures
        post_fixed(fa, fb, n, empties(n), empties(n)),
        below_solutions(fa, fb, n, empties(n), empties(n)),
        within(empties::<T>(n), u),
{
    assert forall|a2: Seq<Set<T>>, b2: Seq<Set<T>>|
        #[trigger] is_solution(fa, fb, n, a2, b2) implies le(empties(n), a2) && le(empties(n), b2) by {
        assert forall|i: int| 0 <= i < n implies (#[trigger] empties::<T>(n)[i]).subset_of(a2[i]) by {}
        assert forall|i: int| 0 <= i < n implies (#[trigger] empties::<T>(n)[i]).subset_of(b2[i]) by {}
    }
}

/// Updating `a[k]` from its equation keeps the sets a post-fixed point
/// below every solution and within `u`, and only makes them grow.
pub proof fn lemma_step_a<T>(
    fa: Rule<T>,
    fb: Rule<T>,
    n: nat,
    u: Set<T>,
    a: Seq<Set<T>>,
    b: Seq<Set<T>>,
    a0: Seq<Set<T>>,
    b0: Seq<Set<T>>,
    k: int,
)
    requires
        monotone(fa, fb, n),
        bounded(fa, fb, n, u),
        0 <= k < n,
        post_fixed(fa, fb, n, a, b),
        below_solutions(fa, fb, n, a, b),
        within(a, u),
        within(b, u),
        le(a0, a),
        le(b0, b),
    ensures
        ({
            let a2 = a.update(k, fa(k, a, b));
            &&& post_fixed(fa, fb, n, a2, b)
            &&& below_solutions(fa, fb, n, a2, b)
            &&& within(a2, u)
            &&& le(a, a2)
            &&& le(a0, a2)
            &&& fa(k, a0, b0).subset_of(a2[k])
        }),
{
    let a2 = a.update(k, fa(k, a, b));
    assert(a[k].subset_of(fa(k, a, b)));
    assert(le(a, a2));
    assert(fa(k, a0, b0).subset_of(fa(k, a, b)));
    assert(le(a0, a2)) by {
        assert forall|i: int| 0 <= i < a0.len() implies (#[trigger] a0[i]).subset_of(a2[i]) by {
            assert(a0[i].subset_of(a[i]));
        }
    }
    assert(fa(k, a, b).subset_of(u));
    assert(within(a2, u));
    assert forall|j: int| 0 <= j < n implies (#[trigger] a2[j]).subset_of(fa(j, a2, b)) && b[j].subset_of(
        fb(j, a2, b),
    ) by {
        assert(a[j].subset_of(fa(j, a, b)) && b[j].subset_of(fb(j, a, b)));
        assert(fa(j, a, b).subset_of(fa(j, a2, b)));
        assert(fb(j, a, b).subset_of(fb(j, a2, b)));
    }
    assert forall|s1: Seq<Set<T>>, s2: Seq<Set<T>>|
        #[trigger] is_solution(fa, fb, n, s1, s2) implies le(a2, s1) && le(b, s2) by {
        assert(le(a, s1) && le(b, s2));
        assert(fa(k, a, b).subset_of(fa(k, s1, s2)));
        assert(s1[k] == fa(k, s1, s2));
        assert forall|i: int| 0 <= i < a2.len() implies (#[trigger] a2[i]).subset_of(s1[i]) by {
            if i != k {
                assert(a[i].subset_of(s1[i]));
            }
        }
    }
}

/// Updating `b[k]` from its equation keeps the sets a post-fixed point
/// below every solution and within `u`, and only makes them grow.
pub proof fn lemma_step_b<T>(
    fa: Rule<T>,
    fb: Rule<T>,
    n: nat,
    u: Set<T>,
    a: Seq<Set<T>>,
    b: Seq<Set<T>>,
    a0: Seq<Set<T>>,
    b0: Seq<Set<T>>,
    k: int,
)
    requires
        monotone(fa, fb, n),
        bounded(fa, fb, n, u),
        0 <= k < n,
        post_fixed(fa, fb, n, a, b),
        below_solutions(fa, fb, n, a, b),
        within(a, u),
        within(b, u),
        le(a0, a),
        le(b0, b),
    ensures
        ({
            let b2 = b.update(k, fb(k, a, b));
            &&& post_fixed(fa, fb, n, a, b2)
            &&& below_solutions(fa, fb, n, a, b2)
            &&& within(b2, u)
            &&& le(b, b2)
            &&& le(b0, b2)
            &&& fb(k, a0, b0).subset_of(b2[k])
        }),
{
    let b2 = b.update(k, fb(k, a, b));
    assert(b[k].subset_of(fb(k, a, b)));
    assert(le(b, b2));
    assert(fb(k, a0, b0).subset_of(fb(k, a, b)));
    assert(le(b0, b2)) by {
        assert forall|i: int| 0 <= i < b0.len() implies (#[trigger] b0[i]).subset_of(b2[i]) by {
            assert(b0[i].subset_of(b[i]));
        }
    }
    assert(fb(k, a, b).subset_of(u));
    assert(within(b2, u));
    assert forall|j: int| 0 <= j < n implies (#[trigger] a[j]).subset_of(fa(j, a, b2)) && b2[j].subset_of(
        fb(j, a, b2),
    ) by {
        assert(a[j].subset_of(fa(j, a, b)) && b[j].subset_of(fb(j, a, b)));
        assert(fa(j, a, b).subset_of(fa(j, a, b2)));
        assert(fb(j, a, b).subset_of(fb(j, a, b2)));
    }
    assert forall|s1: Seq<Set<T>>, s2: Seq<Set<T>>|
        #[trigger] is_solution(fa, fb, n, s1, s2) implies le(a, s1) && le(b2, s2) by {
        assert(le(a, s1) && le(b, s2));
        assert(fb(k, a, b).subset_of(fb(k, s1, s2)));
        assert(s2[k] == fb(k, s1, s2));
        assert forall|i: int| 0 <= i < b2.len() implies (#[trigger] b2[i]).subset_of(s2[i]) by {
            if i != k {
                assert(b[i].subset_of(s2[i]));
            }
        }
    }
}

/// Slack is never negative for sets within a finite `u`, only shrinks as
/// the sets grow, and strictly shrinks when one of them grows.
pub proof fn lemma_slack<T>(x: Seq<Set<T>>, y: Seq<Set<T>>, u: Set<T>)
    requires
        u.finite(),
        le(x, y),
        within(y, u),
    ensures
        0 <= slack(y, u) <= slack(x, u),
        x != y ==> slack(y, u) < slack(x, u),
    decreases x.len(),
{
    if x.len() > 0 {
        let xl = x.last();
        let yl = y.last();
        assert(xl.subset_of(yl));
        assert(yl.subset_of(u));
        lemma_len_subset(yl, u);
        lemma_len_subset(xl, yl);
        assert(le(x.drop_last(), y.drop_last()));
        assert(within(y.drop_last(), u));
        lemma_slack(x.drop_last(), y.drop_last(), u);
        assert(slack(x, u) == slack(x.drop_last(), u) + (u.len() - xl.len()));
        assert(slack(y, u) == slack(y.drop_last(), u) + (u.len() - yl.len()));
        if x != y {
            if x.drop_last() == y.drop_last() {
                assert(xl != yl) by {
                    if xl == yl {
                        assert(x =~= y.drop_last().push(yl));
                        assert(y =~= y.drop_last().push(yl));
                    }
                }
                if xl.len() == yl.len() {
                    lemma_subset_equality(xl, yl);
                }
            }
        }
    } else {
        assert(x =~= y);
    }
}

/// When a whole pass changed nothing, the sets solve the system, and so
/// are its least solution.
pub proof fn lemma_pass_fixed<T>(fa: Rule<T>, fb: Rule<T>, n: nat, a: Seq<Set<T>>, b: Seq<Set<T>>)
    requires
        post_fixed(fa, fb, n, a, b),
        below_solutions(fa, fb, n, a, b),
        forall|k: int| 0 <= k < n ==> (#[trigger] fa(k, a, b)).subset_of(a[k]) && fb(k, a, b).subset_of(b[k]),
    ensures
        is_least_solution(fa, fb, n, a, b),
{
    assert forall|k: int| 0 <= k < n implies #[trigger] a[k] == fa(k, a, b) && b[k] == fb(k, a, b) by {
        assert(fa(k, a, b).subset_of(a[k]));
        assert(a[k].subset_of(fa(k, a, b)));
        assert(a[k] =~= fa(k, a, b));
        assert(b[k] =~= fb(k, a, b));
    }
}

/// What holds between passes: the sets are a post-fixed point below every
/// solution and within the finite set `u`, for a monotone system bounded
/// by `u`.
#[verifier::opaque]
pub open spec fn between_passes<T>(fa: Rule<T>, fb: Rule<T>, n: nat, u: Set<T>, a: Seq<Set<T>>, b: Seq<Set<T>>) -> bool {
    &&& monotone(fa, fb, n)
    &&& bounded(fa, fb, n, u)
    &&& u.finite()
    &&& post_fixed(fa, fb, n, a, b)
    &&& below_solutions(fa, fb, n, a, b)
    &&& within(a, u)
    &&& within(b, u)
}

/// What holds during a pass that started from `a0`, `b0` and has visited
/// the nodes `lo..hi`.
#[verifier::opaque]
pub open spec fn in_pass<T>(
    fa: Rule<T>,
    fb: Rule<T>,
    n: nat,
    u: Set<T>,
    a: Seq<Set<T>>,
    b: Seq<Set<T>>,
    a0: Seq<Set<T>>,
    b0: Seq<Set<T>>,
    lo: int,
    hi: int,
) -> bool {
    &&& between_passes(fa, fb, n, u, a, b)
    &&& le(a0, a)
    &&& le(b0, b)
    &&& 0 <= lo <= hi <= n
    &&& forall|j: int| lo <= j < hi ==> (#[trigger] fa(j, a0, b0)).subset_of(a[j]) && fb(j, a0, b0).subset_of(b[j])
}

/// Empty sets are where the iteration starts.
pub proof fn lemma_begin<T>(fa: Rule<T>, fb: Rule<T>, n: nat, u: Set<T>)
    requires
        monotone(fa, fb, n),
        bounded(fa, fb, n, u),
        u.finite(),
    ensures
        between_passes(fa, fb, n, u, empties(n), empties(n)),
{
    reveal(between_passes);
    lemma_start(fa, fb, n, u);
}

/// A pass starts having visited no node.
pub proof fn lemma_pass_begin<T>(fa: Rule<T>, fb: Rule<T>, n: nat, u: Set<T>, a: Seq<Set<T>>, b: Seq<Set<T>>, at: int)
    requires
        between_passes(fa, fb, n, u, a, b),
        0 <= at <= n,
    ensures
        in_pass(fa, fb, n, u, a, b, a, b, at, at),
        a.len() == n,
        b.len() == n,
{
    reveal(between_passes);
    reveal(in_pass);
}

/// Visiting node `k` next to the visited range: `a[k]` is updated from its
/// equation, then `b[k]` from its own.
pub proof fn lemma_pass_step<T>(
    fa: Rule<T>,
    fb: Rule<T>,
    n: nat,
    u: Set<T>,
    a: Seq<Set<T>>,
    b: Seq<Set<T>>,
    a0: Seq<Set<T>>,
    b0: Seq<Set<T>>,
    lo: int,
    hi: int,
    k: int,
)
    requires
        in_pass(fa, fb, n, u, a, b, a0, b0, lo, hi),
        0 <= k < n,
        k == hi || k == lo - 1,
    ensures
        ({
            let a2 = a.update(k, fa(k, a, b));
            let b2 = b.update(k, fb(k, a2, b));
            in_pass(fa, fb, n, u, a2, b2, a0, b0, if k == hi { lo } else { k }, if k == hi { hi + 1 } else { hi })
        }),
        a.len() == n,
        b.len() == n,
{
    reveal(between_passes);
    reveal(in_pass);
    let a2 = a.update(k, fa(k, a, b));
    lemma_step_a(fa, fb, n, u, a, b, a0, b0, k);
    let b2 = b.update(k, fb(k, a2, b));
    lemma_step_b(fa, fb, n, u, a2, b, a0, b0, k);
    let lo2 = if k == hi { lo } else { k };
    let hi2 = if k == hi { hi + 1 } else { hi };
    assert forall|j: int| lo2 <= j < hi2 implies (#[trigger] fa(j, a0, b0)).subset_of(a2[j]) && fb(j, a0, b0).subset_of(b2[j]) by {
        if j != k {
            assert(fa(j, a0, b0).subset_of(a[j]) && fb(j, a0, b0).subset_of(b[j]));
            assert(a[j].subset_of(a2[j]));
            assert(b[j].subset_of(b2[j]));
        }
    }
}

/// At the end of a pass: the sets are again between passes; when the pass
/// changed nothing they are the least solution; otherwise the slack has
/// shrunk.
pub proof fn lemma_pass_end<T>(
    fa: Rule<T>,
    fb: Rule<T>,
    n: nat,
    u: Set<T>,
    a: Seq<Set<T>>,
    b: Seq<Set<T>>,
    a0: Seq<Set<T>>,
    b0: Seq<Set<T>>,
)
    requires
        in_pass(fa, fb, n, u, a, b, a0, b0, 0, n as int),
    ensures
        between_passes(fa, fb, n, u, a, b),
        a == a0 && b == b0 ==> is_least_solution(fa, fb, n, a, b),
        !(a == a0 && b == b0) ==> 0 <= slack(a, u) + slack(b, u) < slack(a0, u) + slack(b0, u),
{
    reveal(between_passes);
    reveal(in_pass);
    lemma_slack(a0, a, u);
    lemma_slack(b0, b, u);
    if a == a0 && b == b0 {
        assert forall|k: int| 0 <= k < n implies (#[trigger] fa(k, a, b)).subset_of(a[k]) && fb(k, a, b).subset_of(b[k]) by {
            assert(fa(k, a0, b0).subset_of(a[k]) && fb(k, a0, b0).subset_of(b[k]));
        }
        lemma_pass_fixed(fa, fb, n, a, b);
    }
}

/// Between passes the slack is not negative.
pub proof fn lemma_slack_nonneg<T>(fa: Rule<T>, fb: Rule<T>, n: nat, u: Set<T>, a: Seq<Set<T>>, b: Seq<Set<T>>)
    requires
        between_passes(fa, fb, n, u, a, b),
    ensures
        0 <= slack(a, u),
        0 <= slack(b, u),
{
    reveal(between_passes);
    lemma_slack(a, a, u);
    lemma_slack(b, b, u);
}

/// The least solution of the system (a chosen one when there is none).
pub open spec fn least_solution<T>(fa: Rule<T>, fb: Rule<T>, n: nat) -> (Seq<Set<T>>, Seq<Set<T>>) {
    choose|p: (Seq<Set<T>>, Seq<Set<T>>)| is_least_solution(fa, fb, n, p.0, p.1)
}

/// A system has at most one least solution.
pub proof fn lemma_least_solution_unique<T>(fa: Rule<T>, fb: Rule<T>, n: nat, a: Seq<Set<T>>, b: Seq<Set<T>>)
    requires
        is_least_solution(fa, fb, n, a, b),
    ensures
        least_solution(fa, fb, n) == (a, b),
{
    assert(is_least_solution(fa, fb, n, (a, b).0, (a, b).1));
    let p = least_solution(fa, fb, n);
    assert(is_least_solution(fa, fb, n, p.0, p.1));
    assert(is_solution(fa, fb, n, a, b));
    assert(is_solution(fa, fb, n, p.0, p.1));
    assert(le(p.0, a) && le(p.1, b));
    assert(le(a, p.0) && le(b, p.1));
    assert forall|i: int| 0 <= i < n implies #[trigger] p.0[i] == a[i] && p.1[i] == b[i] by {
        assert(p.0[i].subset_of(a[i]) && a[i].subset_of(p.0[i]));
        assert(p.1[i].subset_of(b[i]) && b[i].subset_of(p.1[i]));
        assert(p.0[i] =~= a[i]);
        assert(p.1[i] =~= b[i]);
    }
    assert(p.0 =~= a);
    assert(p.1 =~= b);
}

/// The sets are the greatest solution of the system within `u`: a solution
/// within `u` that includes, pointwise, every solution within `u`.
pub open spec fn is_greatest_solution_within<T>(fa: Rule<T>, fb: Rule<T>, n: nat, u: Set<T>, a: Seq<Set<T>>, b: Seq<Set<T>>) -> bool {
    &&& is_solution(fa, fb, n, a, b)
    &&& within(a, u)
    &&& within(b, u)
    &&& forall|a2: Seq<Set<T>>, b2: Seq<Set<T>>|
        #[trigger] is_solution(fa, fb, n, a2, b2) && within(a2, u) && within(b2, u) ==> le(a2, a) && le(b2, b)
}

/// The greatest solution of the system within `u` (a chosen one when there
/// is none).
pub open spec fn greatest_solution_within<T>(fa: Rule<T>, fb: Rule<T>, n: nat, u: Set<T>) -> (Seq<Set<T>>, Seq<Set<T>>) {
    choose|p: (Seq<Set<T>>, Seq<Set<T>>)| is_greatest_solution_within(fa, fb, n, u, p.0, p.1)
}

/// A system has at most one greatest solution within a set.
pub proof fn lemma_greatest_solution_unique<T>(fa: Rule<T>, fb: Rule<T>, n: nat, u: Set<T>, a: Seq<Set<T>>, b: Seq<Set<T>>)
    requires
        is_greatest_solution_within(fa, fb, n, u, a, b),
    ensures
        greatest_solution_within(fa, fb, n, u) == (a, b),
{
    assert(is_greatest_solution_within(fa, fb, n, u, (a, b).0, (a, b).1));
    let p = greatest_solution_within(fa, fb, n, u);
    assert(is_greatest_solution_within(fa, fb, n, u, p.0, p.1));
    assert(is_solution(fa, fb, n, a, b));
    assert(is_solution(fa, fb, n, p.0, p.1));
    assert(le(p.0, a) && le(p.1, b));
    assert(le(a, p.0) && le(b, p.1));
    assert forall|i: int| 0 <= i < n implies #[trigger] p.0[i] == a[i] && p.1[i] == b[i] by {
        assert(p.0[i].subset_of(a[i]) && a[i].subset_of(p.0[i]));
        assert(p.1[i].subset_of(b[i]) && b[i].subset_of(p.1[i]));
        assert(p.0[i] =~= a[i]);
        assert(p.1[i] =~= b[i]);
    }
    assert(p.0 =~= a);
    assert(p.1 =~= b);
}

/// All the equations applied at once to the sets.
pub open spec fn apply_all<T>(fa: Rule<T>, fb: Rule<T>, n: nat, a: Seq<Set<T>>, b: Seq<Set<T>>) -> (Seq<Set<T>>, Seq<Set<T>>) {
    (Seq::new(n, |k: int| fa(k, a, b)), Seq::new(n, |k: int| fb(k, a, b)))
}

proof fn lemma_least_from<T>(fa: Rule<T>, fb: Rule<T>, n: nat, u: Set<T>, a: Seq<Set<T>>, b: Seq<Set<T>>)
    requires
        monotone(fa, fb, n),
        bounded(fa, fb, n, u),
        u.finite(),
        post_fixed(fa, fb, n, a, b),
        below_solutions(fa, fb, n, a, b),
        within(a, u),
        within(b, u),
    ensures
        exists|p: (Seq<Set<T>>, Seq<Set<T>>)| is_least_solution(fa, fb, n, p.0, p.1),
    decreases slack(a, u) + slack(b, u),
{
    let (a2, b2) = apply_all(fa, fb, n, a, b);
    assert(le(a, a2)) by {
        assert forall|i: int| 0 <= i < a.len() implies (#[trigger] a[i]).subset_of(a2[i]) by {}
    }
    assert(le(b, b2)) by {
        assert forall|i: int| 0 <= i < b.len() implies (#[trigger] b[i]).subset_of(b2[i]) by {}
    }
    assert(within(a2, u)) by {
        assert forall|i: int| 0 <= i < a2.len() implies (#[trigger] a2[i]).subset_of(u) by {
            assert(fa(i, a, b).subset_of(u));
        }
    }
    assert(within(b2, u)) by {
        assert forall|i: int| 0 <= i < b2.len() implies (#[trigger] b2[i]).subset_of(u) by {
            assert(fb(i, a, b).subset_of(u));
        }
    }
    if a2 == a && b2 == b {
        assert forall|k: int| 0 <= k < n implies (#[trigger] fa(k, a, b)).subset_of(a[k]) && fb(k, a, b).subset_of(b[k]) by {
            assert(a2[k] == fa(k, a, b));
            assert(b2[k] == fb(k, a, b));
        }
        lemma_pass_fixed(fa, fb, n, a, b);
        assert(is_least_solution(fa, fb, n, (a, b).0, (a, b).1));
    } else {
        assert forall|k: int| #![trigger a2[k]] #![trigger b2[k]] 0 <= k < n implies a2[k].subset_of(fa(k, a2, b2)) && b2[k].subset_of(fb(k, a2, b2)) by {
            assert(fa(k, a, b).subset_of(fa(k, a2, b2)));
            assert(fb(k, a, b).subset_of(fb(k, a2, b2)));
        }
        assert forall|s1: Seq<Set<T>>, s2: Seq<Set<T>>|
            #[trigger] is_solution(fa, fb, n, s1, s2) implies le(a2, s1) && le(b2, s2) by {
            assert(le(a, s1) && le(b, s2));
            assert forall|i: int| 0 <= i < a2.len() implies (#[trigger] a2[i]).subset_of(s1[i]) by {
                assert(fa(i, a, b).subset_of(fa(i, s1, s2)));
                assert(s1[i] == fa(i, s1, s2));
            }
            assert forall|i: int| 0 <= i < b2.len() implies (#[trigger] b2[i]).subset_of(s2[i]) by {
                assert(fb(i, a, b).subset_of(fb(i, s1, s2)));
                assert(s2[i] == fb(i, s1, s2));
            }
        }
        lemma_slack(a, a2, u);
        lemma_slack(b, b2, u);
        lemma_least_from(fa, fb, n, u, a2, b2);
    }
}

/// A monotone system whose equations keep the sets within a finite set has
/// a least solution.
pub proof fn lemma_least_solution_exists<T>(fa: Rule<T>, fb: Rule<T>, n: nat, u: Set<T>)
    requires
        monotone(fa, fb, n),
        bounded(fa, fb, n, u),
        u.finite(),
    ensures
        ({
            let p = least_solution(fa, fb, n);
            is_least_solution(fa, fb, n, p.0, p.1)
        }),
{
    lemma_start(fa, fb, n, u);
    lemma_least_from(fa, fb, n, u, empties(n), empties(n));
}

} // verus!
