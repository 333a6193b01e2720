//! What allocation owes its children, where nothing is rounded: no
//! demand is lost while a child has room, and nobody with room left has less
//! than their weight entitles them to.

use crate::arithmetic;
use crate::dispatch::allocation;
use crate::dispatch::allocation::{AllocationPolicy, ChildView};
use crate::scalar;
use crate::scalar::Scalar;
use vstd::prelude::*;

verus! {

/// The weights of the open children.
pub open spec fn picked<N>(weights: Seq<N>, open: Seq<usize>) -> Seq<N> {
    Seq::new(open.len(), |k: int| weights[open[k] as int])
}

/// The sum of the open children's weights.
pub open spec fn open_weight<N>(
    value: spec_fn(N) -> real,
    weights: Seq<N>,
    open: Seq<usize>,
) -> real {
    arithmetic::total(value, picked(weights, open))
}

/// No number of a sequence is negative.
pub open spec fn not_negative<N>(value: spec_fn(N) -> real, numbers: Seq<N>) -> bool {
    forall|i: int| 0 <= i < numbers.len() ==> 0real <= value(#[trigger] numbers[i])
}

/// The constants that allocation computes with count.
pub open spec fn constants_count<N: Scalar>(counts: spec_fn(N) -> bool) -> bool {
    counts(scalar::zero()) && counts(scalar::one()) && counts(N::epsilon_spec())
}

/// The part of the demand that an open child is proposed.
pub open spec fn fraction<N: Scalar>(weights: Seq<N>, open: Seq<usize>, k: int) -> N {
    let total = scalar::sum_of(picked(weights, open));
    if scalar::zero::<N>().below_spec(total) {
        weights[open[k] as int].over_spec(total)
    } else {
        scalar::one::<N>().over_spec(N::int_spec(open.len() as int))
    }
}

/// Whether the division that gives an open child its part comes out even.
pub open spec fn fraction_is_even<N: Scalar>(
    value: spec_fn(N) -> real,
    weights: Seq<N>,
    open: Seq<usize>,
    k: int,
) -> bool {
    let total = scalar::sum_of(picked(weights, open));
    if scalar::zero::<N>().below_spec(total) {
        arithmetic::is_even(value, weights[open[k] as int], total)
    } else {
        arithmetic::is_even(value, scalar::one::<N>(), N::int_spec(open.len() as int))
    }
}

/// What occurs when a round proposes counts, and its divisions come out even.
pub open spec fn proposals_count<N: Scalar>(
    value: spec_fn(N) -> real,
    counts: spec_fn(N) -> bool,
    weights: Seq<N>,
    open: Seq<usize>,
    demand: N,
) -> bool {
    &&& counts(demand)
    &&& counts(N::int_spec(open.len() as int))
    &&& arithmetic::adds_up(counts, picked(weights, open))
    &&& forall|k: int|
        0 <= k < open.len() ==> counts(#[trigger] fraction(weights, open, k)) && fraction_is_even(
            value,
            weights,
            open,
            k,
        )
    &&& forall|k: int|
        0 <= k < open.len() ==> counts(
            #[trigger] allocation::proposals(weights, open, demand)[k],
        )
}

/// What is taken together by those who reach their caps counts, one by one.
pub open spec fn consumed_counts<N: Scalar>(
    counts: spec_fn(N) -> bool,
    caps: Seq<N>,
    open: Seq<usize>,
    proposed: Seq<N>,
) -> bool {
    forall|n: int|
        0 <= n <= open.len() ==> counts(#[trigger] allocation::consumed(caps, open, proposed, n))
}

/// What occurs in all rounds counts, and their divisions come out even.
pub open spec fn rounds_count<N: Scalar>(
    value: spec_fn(N) -> real,
    counts: spec_fn(N) -> bool,
    weights: Seq<N>,
    caps: Seq<N>,
    open: Seq<usize>,
    demand: N,
) -> bool
    decreases open.len(),
{
    let proposed = allocation::proposals(weights, open, demand);
    let rest = allocation::still_open(caps, open, proposed, open.len() as int);
    let left = demand.minus_spec(
        allocation::consumed(caps, open, proposed, open.len() as int),
    );
    if !N::epsilon_spec().below_spec(demand) || open.len() == 0 {
        true
    } else {
        &&& proposals_count(value, counts, weights, open, demand)
        &&& consumed_counts(counts, caps, open, proposed)
        &&& rest.len() < open.len() ==> counts(left) && rounds_count(
            value,
            counts,
            weights,
            caps,
            rest,
            left,
        )
    }
}

proof fn lemma_total_after_update<N>(value: spec_fn(N) -> real, s: Seq<N>, i: int, x: N)
    requires
        0 <= i < s.len(),
    ensures
        arithmetic::total(value, s.update(i, x)) == arithmetic::total(value, s) - value(s[i])
            + value(x),
    decreases s.len(),
{
    let t = s.update(i, x);
    if i == s.len() - 1 {
        assert(t.drop_last() =~= s.drop_last());
    } else {
        assert(t.drop_last() =~= s.drop_last().update(i, x));
        lemma_total_after_update(value, s.drop_last(), i, x);
    }
}

proof fn lemma_total_bounds<N>(value: spec_fn(N) -> real, s: Seq<N>)
    requires
        not_negative(value, s),
    ensures
        0real <= arithmetic::total(value, s),
        forall|i: int| 0 <= i < s.len() ==> value(#[trigger] s[i]) <= arithmetic::total(value, s),
    decreases s.len(),
{
    if s.len() > 0 {
        let init = s.drop_last();
        assert forall|i: int| 0 <= i < init.len() implies 0real <= value(#[trigger] init[i]) by {
            assert(init[i] == s[i]);
        }
        lemma_total_bounds(value, init);
        assert(0real <= value(s[s.len() - 1]));
        assert forall|i: int| 0 <= i < s.len() implies value(#[trigger] s[i])
            <= arithmetic::total(value, s) by {
            if i < init.len() {
                assert(init[i] == s[i]);
            }
        }
    }
}

proof fn lemma_total_step<N>(value: spec_fn(N) -> real, s: Seq<N>, n: int)
    requires
        0 < n <= s.len(),
    ensures
        arithmetic::total(value, s.take(n)) == arithmetic::total(value, s.take(n - 1)) + value(
            s[n - 1],
        ),
{
    assert(s.take(n).drop_last() =~= s.take(n - 1));
}

/// What an open child is proposed is its part of the demand.
proof fn lemma_proposal<N: Scalar>(
    value: spec_fn(N) -> real,
    counts: spec_fn(N) -> bool,
    weights: Seq<N>,
    open: Seq<usize>,
    demand: N,
    k: int,
)
    requires
        arithmetic::is_exact(value, counts),
        constants_count::<N>(counts),
        proposals_count(value, counts, weights, open, demand),
        0 <= k < open.len(),
    ensures
        ({
            let p = value(allocation::proposals(weights, open, demand)[k]);
            let all = open_weight(value, weights, open);
            &&& 0real < all ==> p * all == value(demand) * value(weights[open[k] as int])
            &&& all <= 0real ==> p * (open.len() as int as real) == value(demand)
        }),
{
    let summed = Seq::new(open.len(), |k: int| weights[open[k] as int]);
    assert(summed =~= picked(weights, open));
    arithmetic::lemma_sum_is_total(value, counts, summed);
    let p = value(allocation::proposals(weights, open, demand)[k]);
    let d = value(demand);
    let f = value(fraction(weights, open, k));
    let all = open_weight(value, weights, open);
    let n = open.len() as int as real;
    assert(counts(scalar::sum_of(summed)));
    assert(value(scalar::zero::<N>()) == 0real && value(scalar::one::<N>()) == 1real);
    assert(counts(fraction(weights, open, k)));
    assert(counts(allocation::proposals(weights, open, demand)[k]));
    assert(p == d * f);
    if 0real < all {
        assert(f * all == value(weights[open[k] as int]));
        arithmetic::lemma_times_regroup(d, f, all);
    } else {
        assert(f * n == 1real);
        arithmetic::lemma_times_regroup(d, f, n);
        arithmetic::lemma_times_one(d);
    }
}

proof fn lemma_proposals_of_prefix<N: Scalar>(
    value: spec_fn(N) -> real,
    counts: spec_fn(N) -> bool,
    weights: Seq<N>,
    open: Seq<usize>,
    demand: N,
    n: int,
)
    requires
        arithmetic::is_exact(value, counts),
        constants_count::<N>(counts),
        proposals_count(value, counts, weights, open, demand),
        0 <= n <= open.len(),
    ensures
        ({
            let p = arithmetic::total(
                value,
                allocation::proposals(weights, open, demand).take(n),
            );
            let w = arithmetic::total(value, picked(weights, open).take(n));
            let all = open_weight(value, weights, open);
            &&& 0real < all ==> p * all == value(demand) * w
            &&& all <= 0real ==> p * (open.len() as int as real) == value(demand) * (n as real)
        }),
    decreases n,
{
    let proposed = allocation::proposals(weights, open, demand);
    let p = arithmetic::total(value, proposed.take(n));
    let w = arithmetic::total(value, picked(weights, open).take(n));
    let all = open_weight(value, weights, open);
    let m = open.len() as int as real;
    let d = value(demand);
    let c = n as real;
    if n == 0 {
        arithmetic::lemma_times_zero(all);
        arithmetic::lemma_times_zero(m);
        arithmetic::lemma_times_zero(d);
    } else {
        lemma_proposals_of_prefix(value, counts, weights, open, demand, n - 1);
        lemma_proposal(value, counts, weights, open, demand, n - 1);
        lemma_total_step(value, proposed, n);
        lemma_total_step(value, picked(weights, open), n);
        let p0 = arithmetic::total(value, proposed.take(n - 1));
        let w0 = arithmetic::total(value, picked(weights, open).take(n - 1));
        let q = value(proposed[n - 1]);
        let v = value(weights[open[n - 1] as int]);
        let c0 = (n - 1) as real;
        assert(picked(weights, open)[n - 1] == weights[open[n - 1] as int]);
        if 0real < all {
            arithmetic::lemma_times_sum(p0, q, all);
            arithmetic::lemma_times_sum(w0, v, d);
        } else {
            arithmetic::lemma_times_sum(p0, q, m);
            arithmetic::lemma_times_sum(c0, 1real, d);
        }
    }
}

/// The proposals of a round add up to the demand.
proof fn lemma_proposals_add_up<N: Scalar>(
    value: spec_fn(N) -> real,
    counts: spec_fn(N) -> bool,
    weights: Seq<N>,
    open: Seq<usize>,
    demand: N,
)
    requires
        arithmetic::is_exact(value, counts),
        constants_count::<N>(counts),
        proposals_count(value, counts, weights, open, demand),
        open.len() > 0,
    ensures
        arithmetic::total(value, allocation::proposals(weights, open, demand)) == value(demand),
{
    let proposed = allocation::proposals(weights, open, demand);
    let n = open.len() as int;
    lemma_proposals_of_prefix(value, counts, weights, open, demand, n);
    assert(proposed.take(n) =~= proposed);
    assert(picked(weights, open).take(n) =~= picked(weights, open));
    let p = arithmetic::total(value, proposed);
    let all = open_weight(value, weights, open);
    let d = value(demand);
    let m = n as real;
    if 0real < all {
        arithmetic::lemma_times_cancel(p, d, all);
        arithmetic::lemma_times_cancel(d, p, all);
    } else {
        assert(1real <= m);
        arithmetic::lemma_times_cancel(p, d, m);
        arithmetic::lemma_times_cancel(d, p, m);
    }
}

/// No proposal is negative where neither the weights nor the demand is.
proof fn lemma_proposals_not_negative<N: Scalar>(
    value: spec_fn(N) -> real,
    counts: spec_fn(N) -> bool,
    weights: Seq<N>,
    open: Seq<usize>,
    demand: N,
)
    requires
        arithmetic::is_exact(value, counts),
        constants_count::<N>(counts),
        proposals_count(value, counts, weights, open, demand),
        not_negative(value, picked(weights, open)),
        0real <= value(demand),
    ensures
        not_negative(value, allocation::proposals(weights, open, demand)),
{
    let proposed = allocation::proposals(weights, open, demand);
    assert forall|k: int| 0 <= k < proposed.len() implies 0real <= value(
        #[trigger] proposed[k],
    ) by {
        lemma_proposal(value, counts, weights, open, demand, k);
        let p = value(proposed[k]);
        let w = value(picked(weights, open)[k]);
        let d = value(demand);
        let all = open_weight(value, weights, open);
        let m = open.len() as int as real;
        assert(0real <= w);
        if 0real < all {
            arithmetic::lemma_times_not_negative(d, w);
            arithmetic::lemma_times_zero(all);
            arithmetic::lemma_times_cancel(0real, p, all);
        } else {
            assert(1real <= m);
            arithmetic::lemma_times_zero(m);
            arithmetic::lemma_times_cancel(0real, p, m);
        }
    }
}

/// What those of the first `n` open children are proposed that stay open.
spec fn kept_open<N: Scalar>(
    value: spec_fn(N) -> real,
    caps: Seq<N>,
    open: Seq<usize>,
    proposed: Seq<N>,
    n: int,
) -> real
    decreases n,
{
    if n <= 0 {
        0real
    } else if allocation::capped(caps, open, proposed, n - 1) {
        kept_open(value, caps, open, proposed, n - 1)
    } else {
        kept_open(value, caps, open, proposed, n - 1) + value(proposed[n - 1])
    }
}

proof fn lemma_capped_round<N: Scalar>(
    value: spec_fn(N) -> real,
    counts: spec_fn(N) -> bool,
    weights: Seq<N>,
    caps: Seq<N>,
    open: Seq<usize>,
    proposed: Seq<N>,
    shares: Seq<N>,
    n: int,
    demand: real,
    all: real,
)
    requires
        arithmetic::is_exact(value, counts),
        constants_count::<N>(counts),
        forall|x: int| 0 <= x < caps.len() ==> counts(#[trigger] caps[x]),
        forall|k: int| 0 <= k < open.len() ==> counts(#[trigger] proposed[k]),
        consumed_counts(counts, caps, open, proposed),
        0 <= n <= open.len(),
        proposed.len() == open.len(),
        shares.len() == caps.len(),
        allocation::proper(open, caps.len()),
        not_negative(value, caps),
        not_negative(value, proposed),
        forall|k: int| 0 <= k < open.len() ==> value(shares[#[trigger] open[k] as int]) == 0real,
        forall|k: int|
            0 <= k < open.len() ==> value(#[trigger] proposed[k]) * all == demand * value(
                weights[open[k] as int],
            ),
    ensures
        ({
            let taken = value(allocation::consumed(caps, open, proposed, n));
            let kept = kept_open(value, caps, open, proposed, n);
            let rest = allocation::still_open(caps, open, proposed, n);
            &&& 0real <= taken
            &&& 0real <= kept
            &&& taken + kept <= arithmetic::total(value, proposed.take(n))
            &&& kept * all == demand * open_weight(value, weights, rest)
            &&& arithmetic::total(
                value,
                allocation::capped_shares(caps, open, proposed, shares, n),
            ) == arithmetic::total(value, shares) + taken
        }),
    decreases n,
{
    let taken = value(allocation::consumed(caps, open, proposed, n));
    let kept = kept_open(value, caps, open, proposed, n);
    let rest = allocation::still_open(caps, open, proposed, n);
    assert(value(scalar::zero::<N>()) == 0real);
    assert(counts(allocation::consumed(caps, open, proposed, n)));
    if n == 0 {
        assert(proposed.take(0) =~= Seq::empty());
        assert(picked(weights, rest) =~= Seq::empty());
        let w = open_weight(value, weights, rest);
        assert(kept == 0real && w == 0real);
        arithmetic::lemma_times_zero(all);
        arithmetic::lemma_times_zero(demand);
    } else {
        lemma_capped_round(value, counts, weights, caps, open, proposed, shares, n - 1, demand, all);
        lemma_total_step(value, proposed, n);
        let x = open[n - 1] as int;
        assert(counts(allocation::consumed(caps, open, proposed, n - 1)));
        assert(counts(proposed[n - 1]));
        assert(open[n - 1] < caps.len());
        assert(0real <= value(proposed[n - 1]));
        assert(0real <= value(caps[x]));
        assert(counts(caps[x]));
        let before = allocation::capped_shares(caps, open, proposed, shares, n - 1);
        let rest0 = allocation::still_open(caps, open, proposed, n - 1);
        allocation::lemma_open_child(caps, open, proposed, shares, n - 1, n - 1);
        assert(value(shares[open[n - 1] as int]) == 0real);
        if allocation::capped(caps, open, proposed, n - 1) {
            lemma_total_after_update(value, before, x, caps[x]);
        } else {
            assert(rest == rest0.push(open[n - 1]));
            assert(picked(weights, rest).drop_last() =~= picked(weights, rest0));
            let w0 = open_weight(value, weights, rest0);
            let w = open_weight(value, weights, rest);
            let v = value(weights[x]);
            assert(w == w0 + v);
            let kept0 = kept_open(value, caps, open, proposed, n - 1);
            let p = value(proposed[n - 1]);
            assert(p * all == demand * v);
            arithmetic::lemma_times_sum(kept0, p, all);
            arithmetic::lemma_times_sum(w0, v, demand);
        }
    }
}

proof fn lemma_granted_total<N: Scalar>(
    value: spec_fn(N) -> real,
    caps: Seq<N>,
    open: Seq<usize>,
    proposed: Seq<N>,
    shares: Seq<N>,
    n: int,
)
    requires
        0 <= n <= open.len(),
        proposed.len() == open.len(),
        shares.len() == caps.len(),
        allocation::proper(open, caps.len()),
        forall|k: int| 0 <= k < open.len() ==> value(shares[#[trigger] open[k] as int]) == 0real,
    ensures
        arithmetic::total(value, allocation::granted(open, proposed, shares, n))
            == arithmetic::total(value, shares) + arithmetic::total(value, proposed.take(n)),
    decreases n,
{
    if n == 0 {
        assert(proposed.take(0) =~= Seq::empty());
    } else {
        lemma_granted_total(value, caps, open, proposed, shares, n - 1);
        lemma_total_step(value, proposed, n);
        allocation::lemma_open_child(caps, open, proposed, shares, n - 1, n - 1);
        assert(value(shares[open[n - 1] as int]) == 0real);
        let before = allocation::granted(open, proposed, shares, n - 1);
        assert(open[n - 1] < caps.len());
        lemma_total_after_update(value, before, open[n - 1] as int, proposed[n - 1]);
    }
}

/// A child that is no longer open has no more, by its weight, than the open
/// ones are proposed.
spec fn is_level<N: Scalar>(
    value: spec_fn(N) -> real,
    weights: Seq<N>,
    shares: Seq<N>,
    open: Seq<usize>,
    demand: N,
    x: int,
) -> bool {
    !allocation::is_open(open, x) ==> value(shares[x]) * open_weight(value, weights, open) <= value(
        demand,
    ) * value(weights[x])
}

/// What the rounds start from and keep.
spec fn is_sound<N: Scalar>(
    value: spec_fn(N) -> real,
    counts: spec_fn(N) -> bool,
    weights: Seq<N>,
    caps: Seq<N>,
    shares: Seq<N>,
    open: Seq<usize>,
    demand: N,
) -> bool {
    &&& weights.len() == caps.len()
    &&& shares.len() == caps.len()
    &&& allocation::proper(open, caps.len())
    &&& not_negative(value, weights)
    &&& not_negative(value, caps)
    &&& 0real <= value(demand)
    &&& counts(demand)
    &&& forall|x: int| 0 <= x < caps.len() ==> counts(#[trigger] caps[x])
    &&& forall|x: int|
        0 <= x < caps.len() ==> #[trigger] allocation::is_pending(caps, shares, open, x)
    &&& forall|x: int|
        0 <= x < caps.len() ==> #[trigger] is_level(value, weights, shares, open, demand, x)
}

proof fn lemma_open_is_zero<N: Scalar>(
    value: spec_fn(N) -> real,
    counts: spec_fn(N) -> bool,
    caps: Seq<N>,
    shares: Seq<N>,
    open: Seq<usize>,
)
    requires
        arithmetic::is_exact(value, counts),
        constants_count::<N>(counts),
        allocation::proper(open, caps.len()),
        forall|x: int|
            0 <= x < caps.len() ==> #[trigger] allocation::is_pending(caps, shares, open, x),
    ensures
        forall|k: int| 0 <= k < open.len() ==> value(shares[#[trigger] open[k] as int]) == 0real,
{
    assert forall|k: int| 0 <= k < open.len() implies value(shares[#[trigger] open[k] as int])
        == 0real by {
        assert(allocation::is_open(open, open[k] as int));
        assert(allocation::is_pending(caps, shares, open, open[k] as int));
    }
}

proof fn lemma_picked_not_negative<N: Scalar>(
    value: spec_fn(N) -> real,
    weights: Seq<N>,
    open: Seq<usize>,
)
    requires
        allocation::proper(open, weights.len()),
        not_negative(value, weights),
    ensures
        not_negative(value, picked(weights, open)),
{
    assert forall|k: int| 0 <= k < picked(weights, open).len() implies 0real <= value(
        #[trigger] picked(weights, open)[k],
    ) by {
        assert(open[k] < weights.len());
        assert(0real <= value(weights[open[k] as int]));
    }
}

proof fn lemma_rest_weighs_less<N: Scalar>(
    value: spec_fn(N) -> real,
    weights: Seq<N>,
    caps: Seq<N>,
    open: Seq<usize>,
    proposed: Seq<N>,
    n: int,
)
    requires
        0 <= n <= open.len(),
        not_negative(value, picked(weights, open)),
    ensures
        open_weight(value, weights, allocation::still_open(caps, open, proposed, n))
            <= arithmetic::total(value, picked(weights, open).take(n)),
        n == open.len() ==> open_weight(
            value,
            weights,
            allocation::still_open(caps, open, proposed, n),
        ) <= open_weight(value, weights, open),
    decreases n,
{
    let rest = allocation::still_open(caps, open, proposed, n);
    if n == 0 {
        assert(picked(weights, rest) =~= Seq::empty());
        assert(picked(weights, open).take(0) =~= Seq::empty());
    } else {
        let rest0 = allocation::still_open(caps, open, proposed, n - 1);
        lemma_rest_weighs_less(value, weights, caps, open, proposed, n - 1);
        lemma_total_step(value, picked(weights, open), n);
        assert(0real <= value(picked(weights, open)[n - 1]));
        if !allocation::capped(caps, open, proposed, n - 1) {
            assert(rest == rest0.push(open[n - 1]));
            assert(picked(weights, rest).drop_last() =~= picked(weights, rest0));
        }
    }
    if n == open.len() {
        assert(picked(weights, open).take(n) =~= picked(weights, open));
    }
}

/// Whoever is not open after a round has no more, by their weight, than the
/// open ones were proposed in it.
proof fn lemma_closed_is_level<N: Scalar>(
    value: spec_fn(N) -> real,
    counts: spec_fn(N) -> bool,
    weights: Seq<N>,
    caps: Seq<N>,
    shares: Seq<N>,
    open: Seq<usize>,
    demand: N,
    x: int,
)
    requires
        arithmetic::is_exact(value, counts),
        constants_count::<N>(counts),
        proposals_count(value, counts, weights, open, demand),
        is_sound(value, counts, weights, caps, shares, open, demand),
        0 <= x < caps.len(),
        !allocation::is_open(
            allocation::still_open(
                caps,
                open,
                allocation::proposals(weights, open, demand),
                open.len() as int,
            ),
            x,
        ),
        0real < open_weight(value, weights, open),
    ensures
        value(
            allocation::capped_shares(
                caps,
                open,
                allocation::proposals(weights, open, demand),
                shares,
                open.len() as int,
            )[x],
        ) * open_weight(value, weights, open) <= value(demand) * value(weights[x]),
{
    let proposed = allocation::proposals(weights, open, demand);
    let n = open.len() as int;
    let all = open_weight(value, weights, open);
    if allocation::is_open(open, x) {
        let k = choose|k: int| 0 <= k < open.len() && #[trigger] open[k] == x;
        allocation::lemma_open_child(caps, open, proposed, shares, n, k);
        lemma_proposal(value, counts, weights, open, demand, k);
        let c = value(caps[x]);
        let p = value(proposed[k]);
        assert(counts(caps[x]) && counts(proposed[k]));
        assert(c <= p);
        arithmetic::lemma_times_order(c, p, all);
    } else {
        allocation::lemma_closed_child(caps, open, proposed, shares, n, x);
        assert(is_level(value, weights, shares, open, demand, x));
    }
}

/// What one round is made of.
proof fn lemma_round<N: Scalar>(
    value: spec_fn(N) -> real,
    counts: spec_fn(N) -> bool,
    weights: Seq<N>,
    caps: Seq<N>,
    shares: Seq<N>,
    open: Seq<usize>,
    demand: N,
)
    requires
        arithmetic::is_exact(value, counts),
        constants_count::<N>(counts),
        consumed_counts(
            counts,
            caps,
            open,
            allocation::proposals(weights, open, demand),
        ),
        counts(
            demand.minus_spec(
                allocation::consumed(
                    caps,
                    open,
                    allocation::proposals(weights, open, demand),
                    open.len() as int,
                ),
            ),
        ),
        proposals_count(value, counts, weights, open, demand),
        is_sound(value, counts, weights, caps, shares, open, demand),
        open.len() > 0,
    ensures
        ({
            let proposed = allocation::proposals(weights, open, demand);
            let n = open.len() as int;
            let taken = allocation::consumed(caps, open, proposed, n);
            let after = allocation::capped_shares(caps, open, proposed, shares, n);
            let rest = allocation::still_open(caps, open, proposed, n);
            let left = demand.minus_spec(taken);
            &&& arithmetic::total(value, after) + value(left) == arithmetic::total(value, shares)
                + value(demand)
            &&& is_sound(value, counts, weights, caps, after, rest, left)
        }),
{
    let proposed = allocation::proposals(weights, open, demand);
    let n = open.len() as int;
    let taken = allocation::consumed(caps, open, proposed, n);
    let after = allocation::capped_shares(caps, open, proposed, shares, n);
    let rest = allocation::still_open(caps, open, proposed, n);
    let left = demand.minus_spec(taken);
    let d = value(demand);
    let l = value(left);
    let all = open_weight(value, weights, open);
    let fewer = open_weight(value, weights, rest);
    lemma_open_is_zero(value, counts, caps, shares, open);
    lemma_picked_not_negative(value, weights, open);
    lemma_proposals_not_negative(value, counts, weights, open, demand);
    lemma_proposals_add_up(value, counts, weights, open, demand);
    assert(proposed.take(n) =~= proposed);
    allocation::lemma_still_open_proper(caps, open, proposed, n, caps.len());
    lemma_picked_not_negative(value, weights, rest);
    lemma_total_bounds(value, picked(weights, open));
    lemma_total_bounds(value, picked(weights, rest));
    let scale = if 0real < all {
        all
    } else {
        0real
    };
    let share = if 0real < all {
        d
    } else {
        0real
    };
    assert forall|k: int| 0 <= k < open.len() implies value(#[trigger] proposed[k]) * scale == share
        * value(weights[open[k] as int]) by {
        lemma_proposal(value, counts, weights, open, demand, k);
        let p = value(proposed[k]);
        let w = value(weights[open[k] as int]);
        if !(0real < all) {
            arithmetic::lemma_times_zero(p);
            arithmetic::lemma_times_zero(w);
        }
    }
    lemma_capped_round(value, counts, weights, caps, open, proposed, shares, n, share, scale);
    let kept = kept_open(value, caps, open, proposed, n);
    lemma_rest_weighs_less(value, weights, caps, open, proposed, n);
    assert(kept <= l);
    allocation::lemma_open_child(caps, open, proposed, shares, n, 0);
    assert(0real < all ==> kept * all == d * fewer);
    assert forall|x: int| 0 <= x < caps.len() implies #[trigger] allocation::is_pending(
        caps,
        after,
        rest,
        x,
    ) by {
        assert(allocation::is_pending(caps, shares, open, x));
        allocation::lemma_pending_round(caps, open, proposed, shares, x);
    }
    assert forall|x: int| 0 <= x < caps.len() implies #[trigger] is_level(
        value,
        weights,
        after,
        rest,
        left,
        x,
    ) by {
        if !allocation::is_open(rest, x) {
            let s = value(after[x]);
            let w = value(weights[x]);
            assert(0real <= w);
            assert(allocation::is_pending(caps, after, rest, x));
            assert(0real <= value(caps[x]));
            if 0real < all {
                lemma_closed_is_level(value, counts, weights, caps, shares, open, demand, x);
                assert(s * all <= d * w);
                arithmetic::lemma_times_order(s * all, d * w, fewer);
                arithmetic::lemma_times_swap(s, all, fewer);
                arithmetic::lemma_times_swap(d, w, fewer);
                arithmetic::lemma_times_swap(kept, all, w);
                arithmetic::lemma_times_order(kept, l, w);
                arithmetic::lemma_times_order(kept * w, l * w, all);
                arithmetic::lemma_times_cancel(s * fewer, l * w, all);
            } else {
                arithmetic::lemma_times_zero(s);
                arithmetic::lemma_times_not_negative(l, w);
            }
        }
    }
}

/// Nobody with room left has less, by their weight, than anybody else.
pub open spec fn is_fair<N: Scalar>(
    value: spec_fn(N) -> real,
    weights: Seq<N>,
    caps: Seq<N>,
    shares: Seq<N>,
) -> bool {
    forall|i: int, j: int|
        0 <= i < shares.len() && 0 <= j < shares.len() && value(#[trigger] shares[j]) < value(
            caps[j],
        ) ==> value(#[trigger] shares[i]) * value(weights[j]) <= value(shares[j]) * value(
            weights[i],
        )
}

/// Everybody has as much as they can take.
pub open spec fn is_full<N: Scalar>(
    value: spec_fn(N) -> real,
    caps: Seq<N>,
    shares: Seq<N>,
) -> bool {
    forall|i: int| 0 <= i < shares.len() ==> value(#[trigger] shares[i]) == value(caps[i])
}

proof fn lemma_stop_is_fair<N: Scalar>(
    value: spec_fn(N) -> real,
    counts: spec_fn(N) -> bool,
    weights: Seq<N>,
    caps: Seq<N>,
    shares: Seq<N>,
    open: Seq<usize>,
    demand: N,
)
    requires
        arithmetic::is_exact(value, counts),
        constants_count::<N>(counts),
        is_sound(value, counts, weights, caps, shares, open, demand),
        value(demand) == 0real,
    ensures
        is_fair(value, weights, caps, shares),
{
    lemma_picked_not_negative(value, weights, open);
    lemma_total_bounds(value, picked(weights, open));
    let all = open_weight(value, weights, open);
    assert forall|i: int, j: int|
        0 <= i < shares.len() && 0 <= j < shares.len() && value(#[trigger] shares[j]) < value(
            caps[j],
        ) implies value(#[trigger] shares[i]) * value(weights[j]) <= value(shares[j]) * value(
        weights[i],
    ) by {
        assert(allocation::is_pending(caps, shares, open, i));
        assert(allocation::is_pending(caps, shares, open, j));
        let s = value(shares[i]);
        let t = value(shares[j]);
        let w = value(weights[i]);
        let v = value(weights[j]);
        assert(0real <= w && 0real <= v);
        assert(0real <= value(caps[i]));
        assert(allocation::is_open(open, j));
        assert(t == 0real);
        let k = choose|k: int| 0 <= k < open.len() && #[trigger] open[k] == j;
        assert(picked(weights, open)[k] == weights[j]);
        assert(v <= all);
        if allocation::is_open(open, i) {
            arithmetic::lemma_times_zero(v);
            arithmetic::lemma_times_zero(w);
        } else {
            assert(is_level(value, weights, shares, open, demand, i));
            arithmetic::lemma_times_zero(w);
            arithmetic::lemma_times_order(v, all, s);
            arithmetic::lemma_times_commutes(v, s);
            arithmetic::lemma_times_commutes(all, s);
        }
    }
}

proof fn lemma_grant_is_fair<N: Scalar>(
    value: spec_fn(N) -> real,
    counts: spec_fn(N) -> bool,
    weights: Seq<N>,
    caps: Seq<N>,
    shares: Seq<N>,
    open: Seq<usize>,
    demand: N,
)
    requires
        arithmetic::is_exact(value, counts),
        constants_count::<N>(counts),
        proposals_count(value, counts, weights, open, demand),
        is_sound(value, counts, weights, caps, shares, open, demand),
        open.len() > 0,
    ensures
        is_fair(
            value,
            weights,
            caps,
            allocation::granted(
                open,
                allocation::proposals(weights, open, demand),
                shares,
                open.len() as int,
            ),
        ),
{
    let proposed = allocation::proposals(weights, open, demand);
    let n = open.len() as int;
    let r = allocation::granted(open, proposed, shares, n);
    let all = open_weight(value, weights, open);
    let d = value(demand);
    lemma_picked_not_negative(value, weights, open);
    lemma_total_bounds(value, picked(weights, open));
    lemma_proposals_not_negative(value, counts, weights, open, demand);
    allocation::lemma_open_child(caps, open, proposed, shares, n, 0);
    assert forall|i: int, j: int|
        0 <= i < r.len() && 0 <= j < r.len() && value(#[trigger] r[j]) < value(
            caps[j],
        ) implies value(#[trigger] r[i]) * value(weights[j]) <= value(r[j]) * value(
        weights[i],
    ) by {
        assert(allocation::is_pending(caps, shares, open, i));
        assert(allocation::is_pending(caps, shares, open, j));
        assert(is_level(value, weights, shares, open, demand, i));
        let s = value(r[i]);
        let t = value(r[j]);
        let w = value(weights[i]);
        let v = value(weights[j]);
        assert(0real <= w && 0real <= v);
        if !allocation::is_open(open, j) {
            allocation::lemma_closed_child(caps, open, proposed, shares, n, j);
        }
        let m = choose|m: int| 0 <= m < open.len() && #[trigger] open[m] == j;
        allocation::lemma_open_child(caps, open, proposed, shares, n, m);
        lemma_proposal(value, counts, weights, open, demand, m);
        assert(picked(weights, open)[m] == weights[j]);
        assert(v <= all);
        assert(0real <= value(proposed[m]));
        if allocation::is_open(open, i) {
            let k = choose|k: int| 0 <= k < open.len() && #[trigger] open[k] == i;
            allocation::lemma_open_child(caps, open, proposed, shares, n, k);
            lemma_proposal(value, counts, weights, open, demand, k);
            assert(picked(weights, open)[k] == weights[i]);
            assert(w <= all);
            if 0real < all {
                arithmetic::lemma_times_swap(s, v, all);
                arithmetic::lemma_times_swap(t, w, all);
                arithmetic::lemma_times_swap(d, w, v);
                arithmetic::lemma_times_cancel(s * v, t * w, all);
            } else {
                arithmetic::lemma_times_zero(s);
                arithmetic::lemma_times_zero(t);
            }
        } else {
            allocation::lemma_closed_child(caps, open, proposed, shares, n, i);
            if 0real < all {
                arithmetic::lemma_times_swap(s, v, all);
                arithmetic::lemma_times_order(s * all, d * w, v);
                arithmetic::lemma_times_swap(d, w, v);
                arithmetic::lemma_times_swap(t, w, all);
                arithmetic::lemma_times_cancel(s * v, t * w, all);
            } else {
                arithmetic::lemma_times_zero(s);
                arithmetic::lemma_times_not_negative(t, w);
            }
        }
    }
}

/// No share is negative before a round.
proof fn lemma_pending_not_negative<N: Scalar>(
    value: spec_fn(N) -> real,
    counts: spec_fn(N) -> bool,
    weights: Seq<N>,
    caps: Seq<N>,
    shares: Seq<N>,
    open: Seq<usize>,
    demand: N,
)
    requires
        arithmetic::is_exact(value, counts),
        constants_count::<N>(counts),
        is_sound(value, counts, weights, caps, shares, open, demand),
    ensures
        not_negative(value, shares),
{
    assert(value(scalar::zero::<N>()) == 0real);
    assert forall|x: int| 0 <= x < shares.len() implies 0real <= value(#[trigger] shares[x]) by {
        assert(allocation::is_pending(caps, shares, open, x));
        assert(0real <= value(caps[x]));
    }
}

/// No share is negative when all proposals are granted.
proof fn lemma_granted_not_negative<N: Scalar>(
    value: spec_fn(N) -> real,
    counts: spec_fn(N) -> bool,
    weights: Seq<N>,
    caps: Seq<N>,
    shares: Seq<N>,
    open: Seq<usize>,
    demand: N,
)
    requires
        arithmetic::is_exact(value, counts),
        constants_count::<N>(counts),
        proposals_count(value, counts, weights, open, demand),
        is_sound(value, counts, weights, caps, shares, open, demand),
        open.len() > 0,
    ensures
        not_negative(
            value,
            allocation::granted(
                open,
                allocation::proposals(weights, open, demand),
                shares,
                open.len() as int,
            ),
        ),
{
    let proposed = allocation::proposals(weights, open, demand);
    let n = open.len() as int;
    let r = allocation::granted(open, proposed, shares, n);
    lemma_pending_not_negative(value, counts, weights, caps, shares, open, demand);
    lemma_picked_not_negative(value, weights, open);
    lemma_proposals_not_negative(value, counts, weights, open, demand);
    allocation::lemma_open_child(caps, open, proposed, shares, n, 0);
    assert forall|x: int| 0 <= x < r.len() implies 0real <= value(#[trigger] r[x]) by {
        if allocation::is_open(open, x) {
            let k = choose|k: int| 0 <= k < open.len() && #[trigger] open[k] == x;
            allocation::lemma_open_child(caps, open, proposed, shares, n, k);
            assert(0real <= value(proposed[k]));
        } else {
            allocation::lemma_closed_child(caps, open, proposed, shares, n, x);
            assert(0real <= value(shares[x]));
        }
    }
}

/// The rounds hand out no more than the demand; they stop only when all but
/// the smallest step of it is handed out or everybody is full; and when all of
/// it is handed out, nobody with room left has less than their weight gives
/// them.
proof fn lemma_settled_is_fair<N: Scalar>(
    value: spec_fn(N) -> real,
    counts: spec_fn(N) -> bool,
    weights: Seq<N>,
    caps: Seq<N>,
    shares: Seq<N>,
    open: Seq<usize>,
    demand: N,
)
    requires
        arithmetic::is_exact(value, counts),
        constants_count::<N>(counts),
        rounds_count(value, counts, weights, caps, open, demand),
        is_sound(value, counts, weights, caps, shares, open, demand),
    ensures
        ({
            let r = allocation::settled(weights, caps, shares, open, demand);
            let owed = arithmetic::total(value, shares) + value(demand);
            let given = arithmetic::total(value, r);
            &&& r.len() == caps.len()
            &&& not_negative(value, r)
            &&& given <= owed
            &&& owed - given <= value(N::epsilon_spec()) || is_full(value, caps, r)
            &&& given == owed ==> is_fair(value, weights, caps, r)
        }),
    decreases open.len(),
{
    let proposed = allocation::proposals(weights, open, demand);
    let n = open.len() as int;
    let rest = allocation::still_open(caps, open, proposed, n);
    lemma_pending_not_negative(value, counts, weights, caps, shares, open, demand);
    if open.len() == 0 {
        assert forall|i: int| 0 <= i < shares.len() implies value(#[trigger] shares[i]) == value(
            caps[i],
        ) by {
            assert(allocation::is_pending(caps, shares, open, i));
        }
    } else if !N::epsilon_spec().below_spec(demand) {
        if value(demand) == 0real {
            lemma_stop_is_fair(value, counts, weights, caps, shares, open, demand);
        }
    } else if rest.len() >= open.len() {
        lemma_open_is_zero(value, counts, caps, shares, open);
        lemma_granted_total(value, caps, open, proposed, shares, n);
        assert(proposed.take(n) =~= proposed);
        lemma_proposals_add_up(value, counts, weights, open, demand);
        lemma_grant_is_fair(value, counts, weights, caps, shares, open, demand);
        lemma_granted_not_negative(value, counts, weights, caps, shares, open, demand);
        allocation::lemma_open_child(caps, open, proposed, shares, n, 0);
    } else {
        lemma_round(value, counts, weights, caps, shares, open, demand);
        allocation::lemma_still_open_shrinks(caps, open, proposed, n);
        lemma_settled_is_fair(
            value, counts,
            weights,
            caps,
            allocation::capped_shares(caps, open, proposed, shares, n),
            rest,
            demand.minus_spec(allocation::consumed(caps, open, proposed, n)),
        );
    }
}

/// States of charge are percentages.
pub open spec fn charges_are_percentages<N: Scalar>(
    value: spec_fn(N) -> real,
    children: Seq<ChildView<N>>,
) -> bool {
    forall|i: int|
        0 <= i < children.len() ==> 0real <= value((#[trigger] children[i]).state_of_charge)
            <= 100real
}

/// What a child brings to allocation counts: its headroom, its state of charge
/// and what is left of the latter to a full charge.
pub open spec fn children_count<N: Scalar>(
    counts: spec_fn(N) -> bool,
    children: Seq<ChildView<N>>,
) -> bool {
    &&& counts(N::int_spec(100))
    &&& forall|i: int|
        0 <= i < children.len() ==> {
            let child = #[trigger] children[i];
            &&& counts(child.headroom)
            &&& counts(child.state_of_charge)
            &&& counts(N::int_spec(100).minus_spec(child.state_of_charge))
        }
}

/// What occurs when a total is allocated counts, and its divisions come out
/// even.
pub open spec fn allocation_counts<N: Scalar>(
    value: spec_fn(N) -> real,
    counts: spec_fn(N) -> bool,
    total: N,
    eligible: Seq<ChildView<N>>,
    policy: AllocationPolicy,
) -> bool {
    &&& constants_count::<N>(counts)
    &&& counts(total) && counts(total.magnitude_spec())
    &&& children_count(counts, eligible)
    &&& rounds_count(
        value,
        counts,
        allocation::weights_of(policy, eligible, allocation::direction(total)),
        allocation::caps_of(eligible),
        allocation::indices(eligible.len()),
        total.magnitude_spec(),
    )
}

proof fn lemma_weights_not_negative<N: Scalar>(
    value: spec_fn(N) -> real,
    counts: spec_fn(N) -> bool,
    policy: AllocationPolicy,
    children: Seq<ChildView<N>>,
    sign: N,
)
    requires
        arithmetic::is_exact(value, counts),
        constants_count::<N>(counts),
        children_count(counts, children),
        charges_are_percentages(value, children),
    ensures
        not_negative(value, allocation::weights_of(policy, children, sign)),
{
    let weights = allocation::weights_of(policy, children, sign);
    assert forall|i: int| 0 <= i < weights.len() implies 0real <= value(#[trigger] weights[i]) by {
        assert(0real <= value(children[i].state_of_charge) <= 100real);
        assert(value(scalar::one::<N>()) == 1real);
        assert(value(N::int_spec(100)) == 100real);
        assert(counts(children[i].state_of_charge));
    }
}

proof fn lemma_total_of_zeros<N: Scalar>(
    value: spec_fn(N) -> real,
    counts: spec_fn(N) -> bool,
    n: nat,
)
    requires
        arithmetic::is_exact(value, counts),
        constants_count::<N>(counts),
    ensures
        arithmetic::total(value, Seq::new(n, |i: int| scalar::zero::<N>())) == 0real,
    decreases n,
{
    let zeros = Seq::new(n, |i: int| scalar::zero::<N>());
    if n > 0 {
        lemma_total_of_zeros(value, counts, (n - 1) as nat);
        assert(zeros.drop_last() =~= Seq::new((n - 1) as nat, |i: int| scalar::zero::<N>()));
    }
}

/// What allocation owes, where nothing is rounded and states of charge are
/// percentages. No share is negative before the sign is applied, and
/// no more is handed out than is asked for. No demand is
/// lost while a child has room: all but the smallest step of it is handed out,
/// or every child has as much as it can take. And it is handed out by weight:
/// where none of it is left over, no child with room left has less, by its
/// weight, than any other, so that two children with room left have shares in
/// proportion to their weights.
pub proof fn lemma_demand_is_met_fairly<N: Scalar>(
    value: spec_fn(N) -> real,
    counts: spec_fn(N) -> bool,
    total: N,
    eligible: Seq<ChildView<N>>,
    policy: AllocationPolicy,
)
    requires
        arithmetic::is_exact(value, counts),
        allocation_counts(value, counts, total, eligible, policy),
        charges_are_percentages(value, eligible),
        eligible.len() <= usize::MAX,
    ensures
        ({
            let asked = arithmetic::magnitude(value(total));
            let shares = allocation::fair_shares(total, eligible, policy);
            let given = arithmetic::total(value, shares);
            let weights = allocation::weights_of(policy, eligible, allocation::direction(total));
            let caps = allocation::caps_of(eligible);
            &&& not_negative(value, shares)
            &&& given <= asked
            &&& asked - given <= value(N::epsilon_spec()) || is_full(value, caps, shares)
            &&& given == asked ==> is_fair(value, weights, caps, shares)
        }),
{
    let sign = allocation::direction(total);
    let weights = allocation::weights_of(policy, eligible, sign);
    let caps = allocation::caps_of(eligible);
    let zeros = Seq::new(eligible.len(), |i: int| scalar::zero::<N>());
    let all = allocation::indices(eligible.len());
    let demand = total.magnitude_spec();
    lemma_weights_not_negative(value, counts, policy, eligible, sign);
    lemma_total_of_zeros(value, counts, eligible.len());
    assert(value(scalar::zero::<N>()) == 0real);
    assert forall|i: int| 0 <= i < caps.len() implies 0real <= value(#[trigger] caps[i]) by {
        assert(caps[i] == eligible[i].headroom.larger_spec(scalar::zero()));
        assert(counts(eligible[i].headroom));
    }
    assert forall|i: int| 0 <= i < caps.len() implies counts(#[trigger] caps[i]) by {
        assert(caps[i] == eligible[i].headroom.larger_spec(scalar::zero()));
        assert(counts(eligible[i].headroom));
    }
    assert(allocation::proper(all, caps.len()));
    assert forall|x: int| 0 <= x < caps.len() implies #[trigger] allocation::is_pending(
        caps,
        zeros,
        all,
        x,
    ) by {
        assert(all[x] == x);
        assert(allocation::is_open(all, x));
    }
    assert forall|x: int| 0 <= x < caps.len() implies #[trigger] is_level(
        value,
        weights,
        zeros,
        all,
        demand,
        x,
    ) by {
        assert(all[x] == x);
        assert(allocation::is_open(all, x));
    }
    lemma_settled_is_fair(value, counts, weights, caps, zeros, all, demand);
}

/// Every share that is allocated carries the sign of the total: none of a total
/// that is not negative is negative, and none of a negative total is positive.
pub proof fn lemma_shares_carry_the_sign<N: Scalar>(
    value: spec_fn(N) -> real,
    counts: spec_fn(N) -> bool,
    total: N,
    children: Seq<ChildView<N>>,
    policy: AllocationPolicy,
)
    requires
        arithmetic::is_exact(value, counts),
        allocation_counts(value, counts, total, allocation::eligible_of(children), policy),
        forall|i: int|
            0 <= i < allocation::allocation(total, children, policy).len() ==> {
                &&& counts(
                    #[trigger] allocation::fair_shares(
                        total,
                        allocation::eligible_of(children),
                        policy,
                    )[i],
                )
                &&& counts(allocation::allocation(total, children, policy)[i].1)
            },
        counts(N::int_spec(-1)),
        charges_are_percentages(value, allocation::eligible_of(children)),
        allocation::eligible_of(children).len() <= usize::MAX,
    ensures
        forall|i: int|
            0 <= i < allocation::allocation(total, children, policy).len() ==> {
                let share = value(
                    (#[trigger] allocation::allocation(total, children, policy)[i]).1,
                );
                &&& 0real <= value(total) ==> 0real <= share
                &&& value(total) < 0real ==> share <= 0real
            },
{
    let chosen = allocation::eligible_of(children);
    let shares = allocation::fair_shares(total, chosen, policy);
    let sign = allocation::direction(total);
    let out = allocation::allocation(total, children, policy);
    lemma_demand_is_met_fairly(value, counts, total, chosen, policy);
    allocation::lemma_shares_within_caps(total, chosen, policy);
    assert(value(scalar::zero::<N>()) == 0real);
    assert(value(scalar::one::<N>()) == 1real);
    assert(value(N::int_spec(-1)) == -1real);
    assert forall|i: int| 0 <= i < out.len() implies {
        let share = value((#[trigger] out[i]).1);
        &&& 0real <= value(total) ==> 0real <= share
        &&& value(total) < 0real ==> share <= 0real
    } by {
        let s = value(shares[i]);
        assert(counts(shares[i]) && counts(out[i].1));
        assert(0real <= s);
        assert(value(out[i].1) == value(sign) * s);
        if value(total) < 0real {
            assert(value(sign) == -1real);
            arithmetic::lemma_times_order(-1real, 0real, s);
            arithmetic::lemma_times_zero(s);
        } else {
            assert(value(sign) == 1real);
            arithmetic::lemma_times_not_negative(1real, s);
        }
    }
}

/// What occurs in one round of whole numbers with a lone open child counts.
proof fn lemma_lone_round_counts(
    weights: Seq<i64>,
    caps: Seq<i64>,
    open: Seq<usize>,
    demand: i64,
)
    requires
        open.len() == 1,
        open[0] < weights.len(),
        open[0] < caps.len(),
        0 <= weights[open[0] as int] <= 100,
        0 <= caps[open[0] as int] < i64::MAX,
        0 <= demand < i64::MAX,
    ensures
        rounds_count(
            arithmetic::whole_value(),
            arithmetic::within_range(),
            weights,
            caps,
            open,
            demand,
        ),
{
    let value = arithmetic::whole_value();
    let counts = arithmetic::within_range();
    let w = weights[open[0] as int];
    let c = caps[open[0] as int];
    let parts = picked(weights, open);
    assert(parts.len() == 1 && parts[0] == w);
    assert(parts.drop_last().len() == 0);
    assert(scalar::sum_of(parts) == w);
    assert(arithmetic::adds_up(counts, parts.drop_last()));
    let summed = Seq::new(open.len(), |k: int| weights[open[k] as int]);
    assert(summed =~= parts);
    if w > 0 {
        arithmetic::lemma_whole_quotient(w, w, 1);
    } else {
        arithmetic::lemma_whole_quotient(1, 1, 1);
    }
    let proposed = allocation::proposals(weights, open, demand);
    assert(fraction(weights, open, 0) == 1);
    assert(demand * 1 == demand);
    assert(proposed.len() == 1 && proposed[0] == demand);
    assert(allocation::consumed(caps, open, proposed, 0) == 0);
    if allocation::capped(caps, open, proposed, 0) {
        assert(allocation::consumed(caps, open, proposed, 1) == c);
        assert(allocation::still_open(caps, open, proposed, 0).len() == 0);
        assert(allocation::still_open(caps, open, proposed, 1).len() == 0);
    } else {
        assert(allocation::still_open(caps, open, proposed, 0).len() == 0);
        assert(allocation::still_open(caps, open, proposed, 1).len() == 1);
        assert(allocation::consumed(caps, open, proposed, 1) == 0);
    }
    let rest = allocation::still_open(caps, open, proposed, 1);
    let left = demand.minus_spec(allocation::consumed(caps, open, proposed, 1));
    if rest.len() == 0 {
        assert(rounds_count(value, counts, weights, caps, rest, left));
    }
    assert(consumed_counts(counts, caps, open, proposed)) by {
        assert forall|n: int| 0 <= n <= open.len() implies counts(
            #[trigger] allocation::consumed(caps, open, proposed, n),
        ) by {
            assert(n == 0 || n == 1);
        }
    }
    assert(proposals_count(value, counts, weights, open, demand));
}

/// Whole numbers meet what the laws of allocation ask for where the charge of
/// one child outweighs everything and the other has none: what the first cannot
/// take goes to the second, and no demand is lost.
pub proof fn lemma_whole_overflow_is_met(
    total: i64,
    first: ChildView<i64>,
    second: ChildView<i64>,
)
    requires
        0 < total < i64::MAX,
        2 <= first.state_of_charge <= 100,
        second.state_of_charge == 0,
        0 < first.headroom < i64::MAX,
        0 < second.headroom < i64::MAX,
    ensures
        ({
            let children = seq![first, second];
            let shares = allocation::fair_shares(
                total,
                children,
                AllocationPolicy::SocWeighted,
            );
            let caps = allocation::caps_of(children);
            let value = arithmetic::whole_value();
            let given = arithmetic::total(value, shares);
            &&& allocation_counts(
                value,
                arithmetic::within_range(),
                total,
                children,
                AllocationPolicy::SocWeighted,
            )
            &&& given <= total as real
            &&& (total as real) - given <= 1real || is_full(value, caps, shares)
        }),
{
    let value = arithmetic::whole_value();
    let counts = arithmetic::within_range();
    let children = seq![first, second];
    let policy = AllocationPolicy::SocWeighted;
    let sign = allocation::direction(total);
    let weights = allocation::weights_of(policy, children, sign);
    let caps = allocation::caps_of(children);
    let open = allocation::indices(children.len());
    let w = first.state_of_charge;
    let charge = Seq::new(
        children.len(),
        |i: int| allocation::charge_weight(children[i], sign),
    );
    assert(charge.drop_last().len() == 1 && charge.drop_last()[0] == w);
    assert(scalar::sum_of(charge.drop_last()) == w);
    assert(scalar::sum_of(charge) == w);
    assert(weights == charge);
    assert(weights[0] == w && weights[1] == 0);
    assert(caps[0] == first.headroom && caps[1] == second.headroom);
    assert(open.len() == 2 && open[0] == 0 && open[1] == 1);
    let parts = picked(weights, open);
    assert(parts =~= charge);
    assert(parts.drop_last().drop_last().len() == 0);
    assert(arithmetic::adds_up(counts, parts.drop_last().drop_last()));
    assert(arithmetic::adds_up(counts, parts.drop_last()));
    assert(arithmetic::adds_up(counts, parts));
    arithmetic::lemma_whole_quotient(w, w, 1);
    arithmetic::lemma_whole_quotient(0, w, 0);
    let proposed = allocation::proposals(weights, open, total);
    let summed = Seq::new(open.len(), |k: int| weights[open[k] as int]);
    assert(summed =~= parts);
    assert(fraction(weights, open, 0) == 1 && fraction(weights, open, 1) == 0);
    assert(total * 1 == total && total * 0 == 0);
    assert(proposed.len() == 2 && proposed[0] == total && proposed[1] == 0);
    assert(!allocation::capped(caps, open, proposed, 1));
    assert(allocation::consumed(caps, open, proposed, 0) == 0);
    assert(allocation::still_open(caps, open, proposed, 0) =~= Seq::empty());
    if allocation::capped(caps, open, proposed, 0) {
        let left = total.minus_spec(first.headroom);
        assert(allocation::consumed(caps, open, proposed, 1) == first.headroom);
        assert(allocation::consumed(caps, open, proposed, 2) == first.headroom);
        assert(allocation::still_open(caps, open, proposed, 1) =~= Seq::empty());
        assert(allocation::still_open(caps, open, proposed, 2) =~= seq![1usize]);
        lemma_lone_round_counts(weights, caps, seq![1usize], left);
    } else {
        assert(allocation::consumed(caps, open, proposed, 1) == 0);
        assert(allocation::consumed(caps, open, proposed, 2) == 0);
        assert(allocation::still_open(caps, open, proposed, 1) =~= seq![0usize]);
        assert(allocation::still_open(caps, open, proposed, 2) =~= seq![0usize, 1usize]);
    }
    assert(consumed_counts(counts, caps, open, proposed)) by {
        assert forall|n: int| 0 <= n <= open.len() implies counts(
            #[trigger] allocation::consumed(caps, open, proposed, n),
        ) by {
            assert(n == 0 || n == 1 || n == 2);
        }
    }
    assert(proposals_count(value, counts, weights, open, total)) by {
        assert forall|k: int| 0 <= k < open.len() implies counts(
            #[trigger] fraction(weights, open, k),
        ) && fraction_is_even(value, weights, open, k) by {
            assert(k == 0 || k == 1);
        }
        assert forall|k: int| 0 <= k < open.len() implies counts(
            #[trigger] allocation::proposals(weights, open, total)[k],
        ) by {
            assert(k == 0 || k == 1);
        }
    }
    assert(rounds_count(value, counts, weights, caps, open, total));
    arithmetic::lemma_whole_numbers_are_exact();
    lemma_demand_is_met_fairly(value, counts, total, children, policy);
}

} // verus!
