//! What a child can count on when a setpoint is split, in the numbers that the
//! values stand for: who is served, how much of a total each one carries, and
//! that nobody is driven past their own power bounds.

use crate::app;
use crate::arithmetic;
use crate::asyncapi::types::{ChildAllocation, DistributeBinding};
use crate::dispatch::allocation;
use crate::dispatch::allocation::{AllocationPolicy, ChildView, OperatingState};
use crate::dispatch::distribute;
use crate::dispatch::fairness;
use crate::scalar;
use crate::scalar::Scalar;
use crate::synthetic::cache;
use vstd::prelude::*;

verus! {

// ---------------------------------------------------------------------
// Who is served
// ---------------------------------------------------------------------

/// The children that stand by, charge or discharge, in order.
pub open spec fn in_service<N>(children: Seq<ChildView<N>>) -> Seq<ChildView<N>> {
    children.filter(
        |c: ChildView<N>|
            c.operating_state is Standby || c.operating_state is Charging
                || c.operating_state is Discharging,
    )
}

pub(crate) proof fn lemma_eligible_are_in_service<N>(children: Seq<ChildView<N>>)
    ensures
        allocation::eligible_of(children) == in_service(children),
    decreases children.len(),
{
    reveal(Seq::filter);
    if children.len() > 0 {
        lemma_eligible_are_in_service(children.drop_last());
        match children.last().operating_state {
            OperatingState::Standby => {},
            OperatingState::Charging => {},
            OperatingState::Discharging => {},
            OperatingState::Fault => {},
            OperatingState::Offline => {},
        }
    } else {
        assert(allocation::eligible_of(children) =~= in_service(children));
    }
}

proof fn lemma_in_service_members<N>(children: Seq<ChildView<N>>)
    ensures
        in_service(children).len() <= children.len(),
        forall|i: int|
            0 <= i < in_service(children).len() ==> exists|k: int|
                0 <= k < children.len() && #[trigger] children[k] == (#[trigger] in_service(
                    children,
                )[i]) && !(children[k].operating_state is Fault)
                    && !(children[k].operating_state is Offline),
        forall|k: int|
            0 <= k < children.len() && ((#[trigger] children[k]).operating_state is Standby
                || children[k].operating_state is Charging
                || children[k].operating_state is Discharging) ==> exists|i: int|
                0 <= i < in_service(children).len() && children[k] == (#[trigger] in_service(
                    children,
                )[i]),
    decreases children.len(),
{
    reveal(Seq::filter);
    if children.len() > 0 {
        let init = children.drop_last();
        let before = in_service(init);
        let after = in_service(children);
        lemma_in_service_members(init);
        assert forall|i: int| 0 <= i < after.len() implies exists|k: int|
            0 <= k < children.len() && #[trigger] children[k] == (#[trigger] after[i])
                && !(children[k].operating_state is Fault)
                && !(children[k].operating_state is Offline) by {
            if i < before.len() {
                assert(after[i] == before[i]);
                let k = choose|k: int|
                    0 <= k < init.len() && #[trigger] init[k] == before[i]
                        && !(init[k].operating_state is Fault)
                        && !(init[k].operating_state is Offline);
                assert(children[k] == after[i]);
            } else {
                assert(children[children.len() - 1] == after[i]);
            }
        }
        assert forall|k: int|
            0 <= k < children.len() && ((#[trigger] children[k]).operating_state is Standby
                || children[k].operating_state is Charging
                || children[k].operating_state is Discharging) implies exists|i: int|
            0 <= i < after.len() && children[k] == (#[trigger] after[i]) by {
            if k < init.len() {
                assert(init[k] == children[k]);
                let i = choose|i: int| 0 <= i < before.len() && init[k] == (#[trigger] before[i]);
                assert(after[i] == children[k]);
            } else {
                assert(after[after.len() - 1] == children[k]);
            }
        }
    }
}

pub(crate) proof fn lemma_served_child<N>(children: Seq<ChildView<N>>, i: int) -> (k: int)
    requires
        0 <= i < in_service(children).len(),
    ensures
        0 <= k < children.len(),
        children[k] == in_service(children)[i],
        !(children[k].operating_state is Fault),
        !(children[k].operating_state is Offline),
{
    lemma_in_service_members(children);
    choose|k: int|
        0 <= k < children.len() && #[trigger] children[k] == in_service(children)[i] && !(
        children[k].operating_state is Fault) && !(children[k].operating_state is Offline)
}

proof fn lemma_child_is_served<N>(children: Seq<ChildView<N>>, k: int) -> (i: int)
    requires
        0 <= k < children.len(),
        !(children[k].operating_state is Fault),
        !(children[k].operating_state is Offline),
    ensures
        0 <= i < in_service(children).len(),
        in_service(children)[i] == children[k],
{
    lemma_in_service_members(children);
    match children[k].operating_state {
        OperatingState::Standby => {},
        OperatingState::Charging => {},
        OperatingState::Discharging => {},
        OperatingState::Fault => {},
        OperatingState::Offline => {},
    }
    choose|i: int|
        0 <= i < in_service(children).len() && children[k] == (#[trigger] in_service(children)[i])
}

/// A child has a share in an allocation if and only if it is neither faulted nor
/// offline: every child that stands by, charges or discharges gets one, in the
/// order of the children, and nobody else does.
pub proof fn lemma_children_in_service_get_shares<N: Scalar>(
    total: N,
    children: Seq<ChildView<N>>,
    policy: AllocationPolicy,
)
    ensures
        ({
            let shares = allocation::allocation(total, children, policy);
            &&& shares.len() == in_service(children).len()
            &&& forall|i: int|
                0 <= i < shares.len() ==> (#[trigger] shares[i]).0 == in_service(
                    children,
                )[i].device_id
            &&& forall|k: int|
                0 <= k < children.len() && ((#[trigger] children[k]).operating_state is Standby
                    || children[k].operating_state is Charging
                    || children[k].operating_state is Discharging) ==> exists|i: int|
                    0 <= i < shares.len() && (#[trigger] shares[i]).0 == children[k].device_id
            &&& forall|i: int|
                0 <= i < shares.len() ==> exists|k: int|
                    0 <= k < children.len() && (#[trigger] children[k]).device_id == (
                    #[trigger] shares[i]).0 && !(children[k].operating_state is Fault)
                        && !(children[k].operating_state is Offline)
        }),
{
    let shares = allocation::allocation(total, children, policy);
    let served = in_service(children);
    lemma_eligible_are_in_service(children);
    lemma_in_service_members(children);
    assert forall|k: int|
        0 <= k < children.len() && ((#[trigger] children[k]).operating_state is Standby
            || children[k].operating_state is Charging
            || children[k].operating_state is Discharging) implies exists|i: int|
        0 <= i < shares.len() && (#[trigger] shares[i]).0 == children[k].device_id by {
        let i = choose|i: int| 0 <= i < served.len() && children[k] == (#[trigger] served[i]);
        assert(shares[i].0 == children[k].device_id);
    }
    assert forall|i: int| 0 <= i < shares.len() implies exists|k: int|
        0 <= k < children.len() && (#[trigger] children[k]).device_id == (#[trigger] shares[i]).0
            && !(children[k].operating_state is Fault)
            && !(children[k].operating_state is Offline) by {
        let k = choose|k: int|
            0 <= k < children.len() && #[trigger] children[k] == served[i]
                && !(children[k].operating_state is Fault)
                && !(children[k].operating_state is Offline);
        assert(children[k].device_id == shares[i].0);
    }
}

// ---------------------------------------------------------------------
// How much each one carries
// ---------------------------------------------------------------------

/// What a child can take of a total: its headroom, and nothing where that is
/// negative.
pub open spec fn room<N>(value: spec_fn(N) -> real, child: ChildView<N>) -> real {
    if value(child.headroom) < 0real {
        0real
    } else {
        value(child.headroom)
    }
}

/// What speaks for a child by its charge: what it holds when power is drawn, and
/// what it lacks to a full charge when power is stored.
pub open spec fn charge_claim<N>(value: spec_fn(N) -> real, total: N, child: ChildView<N>) -> real {
    if value(total) < 0real {
        100real - value(child.state_of_charge)
    } else {
        value(child.state_of_charge)
    }
}

/// What a child can claim of a total, in proportion to the others. Under an equal
/// split all claims are alike, and so they are where no charge speaks for
/// anybody.
pub open spec fn claim<N: Scalar>(
    value: spec_fn(N) -> real,
    total: N,
    served: Seq<ChildView<N>>,
    policy: AllocationPolicy,
    i: int,
) -> real {
    let claims = |c: ChildView<N>| charge_claim(value, total, c);
    if policy is EqualSplit || arithmetic::total(claims, served) <= value(N::epsilon_spec()) {
        1real
    } else {
        charge_claim(value, total, served[i])
    }
}

/// How much a share carries, whatever its sign.
pub open spec fn load<N>(value: spec_fn(N) -> real) -> spec_fn((Seq<char>, N)) -> real {
    |p: (Seq<char>, N)| arithmetic::magnitude(value(p.1))
}

/// What occurs when a total is split counts, and its divisions come out even.
pub open spec fn split_counts<N: Scalar>(
    value: spec_fn(N) -> real,
    counts: spec_fn(N) -> bool,
    total: N,
    children: Seq<ChildView<N>>,
    policy: AllocationPolicy,
) -> bool {
    let served = in_service(children);
    &&& arithmetic::is_exact(value, counts)
    &&& counts(N::int_spec(-1))
    &&& fairness::allocation_counts(value, counts, total, served, policy)
    &&& fairness::charges_are_percentages(value, served)
    &&& served.len() <= usize::MAX
    &&& arithmetic::adds_up(counts, Seq::new(served.len(), |i: int| served[i].state_of_charge))
    &&& arithmetic::adds_up(
        counts,
        Seq::new(
            served.len(),
            |i: int| N::int_spec(100).minus_spec(served[i].state_of_charge),
        ),
    )
    &&& forall|i: int|
        0 <= i < served.len() ==> counts(
            #[trigger] allocation::fair_shares(total, served, policy)[i],
        )
    &&& forall|i: int|
        0 <= i < served.len() ==> counts(
            (#[trigger] allocation::allocation(total, children, policy)[i]).1,
        )
}

proof fn lemma_same_totals<A, B>(
    f: spec_fn(A) -> real,
    s: Seq<A>,
    g: spec_fn(B) -> real,
    t: Seq<B>,
)
    requires
        s.len() == t.len(),
        forall|i: int| 0 <= i < s.len() ==> f(#[trigger] s[i]) == g(t[i]),
    ensures
        arithmetic::total(f, s) == arithmetic::total(g, t),
    decreases s.len(),
{
    if s.len() > 0 {
        let n = s.len() - 1;
        assert forall|i: int| 0 <= i < n implies f(#[trigger] s.drop_last()[i]) == g(
            t.drop_last()[i],
        ) by {
            assert(s.drop_last()[i] == s[i]);
        }
        lemma_same_totals(f, s.drop_last(), g, t.drop_last());
        assert(f(s[n]) == g(t[n]));
    }
}

/// The weights of allocation are the claims of those who are served.
proof fn lemma_weights_are_claims<N: Scalar>(
    value: spec_fn(N) -> real,
    counts: spec_fn(N) -> bool,
    total: N,
    children: Seq<ChildView<N>>,
    policy: AllocationPolicy,
)
    requires
        split_counts(value, counts, total, children, policy),
    ensures
        ({
            let served = in_service(children);
            let weights = allocation::weights_of(policy, served, allocation::direction(total));
            forall|i: int|
                0 <= i < served.len() ==> value(#[trigger] weights[i]) == claim(
                    value,
                    total,
                    served,
                    policy,
                    i,
                )
        }),
{
    let served = in_service(children);
    let sign = allocation::direction(total);
    let weights = allocation::weights_of(policy, served, sign);
    let held = Seq::new(served.len(), |i: int| served[i].state_of_charge);
    let lacked = Seq::new(
        served.len(),
        |i: int| N::int_spec(100).minus_spec(served[i].state_of_charge),
    );
    let charge = Seq::new(served.len(), |i: int| allocation::charge_weight(served[i], sign));
    let claims = |c: ChildView<N>| charge_claim(value, total, c);
    assert(value(scalar::zero::<N>()) == 0real && value(scalar::one::<N>()) == 1real);
    assert(value(N::int_spec(-1)) == -1real && value(N::int_spec(100)) == 100real);
    if value(total) < 0real {
        assert(sign == N::int_spec(-1));
        assert(charge =~= lacked);
    } else {
        assert(sign == scalar::one::<N>());
        assert(charge =~= held);
    }
    if served.len() > 0 {
        arithmetic::lemma_sum_is_total(value, counts, charge);
        assert(counts(scalar::sum_of(charge)));
        assert forall|i: int| 0 <= i < served.len() implies claims(#[trigger] served[i]) == value(
            charge[i],
        ) by {
            assert(counts(served[i].state_of_charge));
            assert(charge[i] == allocation::charge_weight(served[i], sign));
        }
        lemma_same_totals(claims, served, value, charge);
        assert forall|i: int| 0 <= i < served.len() implies value(#[trigger] weights[i]) == claim(
            value,
            total,
            served,
            policy,
            i,
        ) by {
            assert(claims(served[i]) == value(charge[i]));
        }
    }
}

/// What a split owes everybody, where nothing is rounded and states of charge are
/// percentages. Every share has the total's sign, and none is larger than its
/// child's headroom. Together the shares are no more than the total. No
/// demand is lost while a child has room: all but the smallest step of it is
/// carried, or everybody carries as much as they can. And where all of it is
/// carried, nobody with room left carries less than anybody else by their claims:
/// equally much under an equal split, by what they hold when power is drawn and
/// by what they lack when power is stored.
pub proof fn lemma_split_is_carried_fairly<N: Scalar>(
    value: spec_fn(N) -> real,
    counts: spec_fn(N) -> bool,
    total: N,
    children: Seq<ChildView<N>>,
    policy: AllocationPolicy,
)
    requires
        split_counts(value, counts, total, children, policy),
    ensures
        ({
            let served = in_service(children);
            let shares = allocation::allocation(total, children, policy);
            let asked = arithmetic::magnitude(value(total));
            let carried = arithmetic::total(load(value), shares);
            &&& shares.len() == served.len()
            &&& forall|i: int|
                0 <= i < shares.len() ==> {
                    let share = value((#[trigger] shares[i]).1);
                    &&& value(total) < 0real ==> share <= 0real
                    &&& 0real <= value(total) ==> 0real <= share
                    &&& arithmetic::magnitude(share) <= room(value, served[i])
                }
            &&& carried <= asked
            &&& asked - carried <= value(N::epsilon_spec()) || forall|i: int|
                0 <= i < shares.len() ==> arithmetic::magnitude(
                    value((#[trigger] shares[i]).1),
                ) == room(value, served[i])
            &&& carried == asked ==> forall|i: int, j: int|
                0 <= i < shares.len() && 0 <= j < shares.len() && arithmetic::magnitude(
                    value((#[trigger] shares[j]).1),
                ) < room(value, served[j]) ==> arithmetic::magnitude(
                    value((#[trigger] shares[i]).1),
                ) * claim(value, total, served, policy, j) <= arithmetic::magnitude(
                    value(shares[j].1),
                ) * claim(value, total, served, policy, i)
        }),
{
    let served = in_service(children);
    let shares = allocation::allocation(total, children, policy);
    let plain = allocation::fair_shares(total, served, policy);
    let sign = allocation::direction(total);
    let weights = allocation::weights_of(policy, served, sign);
    let caps = allocation::caps_of(served);
    lemma_eligible_are_in_service(children);
    allocation::lemma_shares_within_caps(total, served, policy);
    fairness::lemma_demand_is_met_fairly(value, counts, total, served, policy);
    fairness::lemma_shares_carry_the_sign(value, counts, total, children, policy);
    lemma_weights_are_claims(value, counts, total, children, policy);
    assert(value(scalar::zero::<N>()) == 0real && value(scalar::one::<N>()) == 1real);
    assert(value(N::int_spec(-1)) == -1real);
    assert forall|i: int| 0 <= i < shares.len() implies load(value)(#[trigger] shares[i]) == value(
        plain[i],
    ) && value(plain[i]) <= room(value, served[i]) && value(caps[i]) == room(value, served[i]) by {
        assert(counts(plain[i]) && counts(shares[i].1));
        assert(0real <= value(plain[i]));
        arithmetic::lemma_times_one(value(plain[i]));
        arithmetic::lemma_times_commutes(value(sign), value(plain[i]));
        assert(counts(served[i].headroom));
        assert(caps[i] == allocation::cap(served[i]));
        assert(allocation::within_cap(plain[i], allocation::cap(served[i])));
    }
    lemma_same_totals(load(value), shares, value, plain);
    assert forall|i: int| 0 <= i < shares.len() implies {
        let share = value((#[trigger] shares[i]).1);
        arithmetic::magnitude(share) <= room(value, served[i])
    } by {
        assert(load(value)(shares[i]) == value(plain[i]));
    }
    let asked = arithmetic::magnitude(value(total));
    let carried = arithmetic::total(load(value), shares);
    if fairness::is_full(value, caps, plain) {
        assert forall|i: int| 0 <= i < shares.len() implies arithmetic::magnitude(
            value((#[trigger] shares[i]).1),
        ) == room(value, served[i]) by {
            assert(load(value)(shares[i]) == value(plain[i]));
            assert(value(plain[i]) == value(caps[i]));
        }
    }
    if carried == asked {
        assert forall|i: int, j: int|
            0 <= i < shares.len() && 0 <= j < shares.len() && arithmetic::magnitude(
                value((#[trigger] shares[j]).1),
            ) < room(value, served[j]) implies arithmetic::magnitude(
            value((#[trigger] shares[i]).1),
        ) * claim(value, total, served, policy, j) <= arithmetic::magnitude(value(shares[j].1))
            * claim(value, total, served, policy, i) by {
            assert(load(value)(shares[i]) == value(plain[i]));
            assert(load(value)(shares[j]) == value(plain[j]));
            assert(value(weights[i]) == claim(value, total, served, policy, i));
            assert(value(weights[j]) == claim(value, total, served, policy, j));
            assert(value(plain[i]) * value(weights[j]) <= value(plain[j]) * value(weights[i]));
        }
    }
}

// ---------------------------------------------------------------------
// Power bounds
// ---------------------------------------------------------------------

/// What a total's sign is told by counts, and so does every share, with its sign
/// and without it.
pub open spec fn shares_count<N: Scalar>(
    counts: spec_fn(N) -> bool,
    total: N,
    children: Seq<ChildView<N>>,
    policy: AllocationPolicy,
) -> bool {
    let served = in_service(children);
    &&& counts(total) && counts(scalar::zero()) && counts(scalar::one()) && counts(
        N::int_spec(-1),
    )
    &&& served.len() <= usize::MAX
    &&& forall|i: int|
        0 <= i < served.len() ==> counts(
            #[trigger] allocation::fair_shares(total, served, policy)[i],
        )
    &&& forall|i: int|
        0 <= i < served.len() ==> counts(
            (#[trigger] allocation::allocation(total, children, policy)[i]).1,
        )
}

/// No share goes past its child's headroom, on the side of the total's sign.
pub proof fn lemma_no_share_exceeds_headroom<N: Scalar>(
    value: spec_fn(N) -> real,
    counts: spec_fn(N) -> bool,
    total: N,
    children: Seq<ChildView<N>>,
    policy: AllocationPolicy,
)
    requires
        arithmetic::is_exact(value, counts),
        shares_count(counts, total, children, policy),
        forall|i: int|
            0 <= i < in_service(children).len() ==> counts(
                (#[trigger] in_service(children)[i]).headroom,
            ),
    ensures
        ({
            let served = in_service(children);
            let shares = allocation::allocation(total, children, policy);
            forall|i: int|
                0 <= i < shares.len() ==> {
                    let share = value((#[trigger] shares[i]).1);
                    &&& 0real <= value(total) ==> share <= room(value, served[i])
                    &&& value(total) < 0real ==> -room(value, served[i]) <= share
                }
        }),
{
    let served = in_service(children);
    let shares = allocation::allocation(total, children, policy);
    let plain = allocation::fair_shares(total, served, policy);
    let sign = allocation::direction(total);
    lemma_eligible_are_in_service(children);
    allocation::lemma_shares_within_caps(total, served, policy);
    assert(value(scalar::zero::<N>()) == 0real && value(scalar::one::<N>()) == 1real);
    assert(value(N::int_spec(-1)) == -1real);
    assert forall|i: int| 0 <= i < shares.len() implies {
        let share = value((#[trigger] shares[i]).1);
        &&& 0real <= value(total) ==> share <= room(value, served[i])
        &&& value(total) < 0real ==> -room(value, served[i]) <= share
    } by {
        assert(counts(plain[i]) && counts(shares[i].1) && counts(served[i].headroom));
        assert(allocation::within_cap(plain[i], allocation::cap(served[i])));
        arithmetic::lemma_times_one(value(plain[i]));
        arithmetic::lemma_times_commutes(value(sign), value(plain[i]));
    }
}

/// What is read of the children of a binding, one by one: the operating state by
/// the code that was heard last, the state of charge that was heard last, and the
/// child's own id.
pub proof fn lemma_children_are_read<N: Scalar>(
    children: Seq<ChildAllocation<N>>,
    target: N,
    site_id: Seq<char>,
    cache: Map<Seq<char>, u64>,
    k: int,
)
    requires
        distribute::children_of(children, target, site_id, cache) is Ok,
        0 <= k < children.len(),
    ensures
        ({
            let read = distribute::children_of(children, target, site_id, cache)->Ok_0;
            let state_topic = app::site_topic(children[k].operating_state_topic@, site_id);
            let charge_topic = app::site_topic(children[k].state_of_charge_topic@, site_id);
            let code = N::bits_spec(cache[state_topic]).round_spec();
            &&& read.len() == children.len()
            &&& cache.dom().contains(state_topic) && cache.dom().contains(charge_topic)
            &&& read[k].device_id == children[k].device_id@
            &&& read[k].state_of_charge == N::bits_spec(cache[charge_topic])
            &&& 0 <= code <= 4
            &&& (code == 0 <==> read[k].operating_state is Standby)
            &&& (code == 1 <==> read[k].operating_state is Charging)
            &&& (code == 2 <==> read[k].operating_state is Discharging)
            &&& (code == 3 <==> read[k].operating_state is Fault)
            &&& (code == 4 <==> read[k].operating_state is Offline)
        }),
    decreases children.len(),
{
    let init = children.drop_last();
    lemma_children_length(children, target, site_id, cache);
    if k < init.len() {
        lemma_children_are_read(init, target, site_id, cache, k);
        assert(init[k] == children[k]);
    }
}

proof fn lemma_children_length<N: Scalar>(
    children: Seq<ChildAllocation<N>>,
    target: N,
    site_id: Seq<char>,
    cache: Map<Seq<char>, u64>,
)
    requires
        distribute::children_of(children, target, site_id, cache) is Ok,
    ensures
        distribute::children_of(children, target, site_id, cache)->Ok_0.len() == children.len(),
    decreases children.len(),
{
    if children.len() > 0 {
        lemma_children_length(children.drop_last(), target, site_id, cache);
    }
}

/// The power bounds of the children of a binding count.
pub open spec fn bounds_count<N: Scalar>(
    counts: spec_fn(N) -> bool,
    children: Seq<ChildAllocation<N>>,
) -> bool {
    forall|k: int|
        0 <= k < children.len() ==> counts((#[trigger] children[k]).power_max) && counts(
            children[k].power_min,
        ) && counts(children[k].power_min.magnitude_spec())
}

proof fn lemma_room_is_by_bounds<N: Scalar>(
    value: spec_fn(N) -> real,
    counts: spec_fn(N) -> bool,
    children: Seq<ChildAllocation<N>>,
    target: N,
    site_id: Seq<char>,
    cache: Map<Seq<char>, u64>,
    k: int,
)
    requires
        arithmetic::is_exact(value, counts),
        counts(target) && counts(scalar::zero()),
        bounds_count(counts, children),
        distribute::children_of(children, target, site_id, cache) is Ok,
        0 <= k < children.len(),
    ensures
        ({
            let child = distribute::children_of(children, target, site_id, cache)->Ok_0[k];
            &&& counts(child.headroom)
            &&& value(target) < 0real ==> value(child.headroom) == arithmetic::magnitude(
                value(children[k].power_min),
            )
            &&& 0real <= value(target) ==> value(child.headroom) == value(children[k].power_max)
        }),
    decreases children.len(),
{
    let init = children.drop_last();
    lemma_children_length(children, target, site_id, cache);
    assert(value(scalar::zero::<N>()) == 0real);
    if k < init.len() {
        assert forall|j: int| 0 <= j < init.len() implies counts((#[trigger] init[j]).power_max)
            && counts(init[j].power_min) && counts(init[j].power_min.magnitude_spec()) by {
            assert(init[j] == children[j]);
        }
        lemma_room_is_by_bounds(value, counts, init, target, site_id, cache, k);
        assert(init[k] == children[k]);
    } else {
        assert(counts(children[k].power_max));
    }
}

/// Every share of a distributed setpoint lies within the power bounds of its own
/// child: of a setpoint that is not negative it is at most the child's upper
/// bound, or nothing where that bound is negative; of a negative one it is no
/// further below zero than the magnitude of the child's lower bound.
pub proof fn lemma_shares_stay_within_power_bounds<N: Scalar>(
    value: spec_fn(N) -> real,
    counts: spec_fn(N) -> bool,
    binding: DistributeBinding<N>,
    policy: AllocationPolicy,
    target: N,
    site_id: Seq<char>,
    cache: Map<Seq<char>, u64>,
)
    requires
        arithmetic::is_exact(value, counts),
        bounds_count(counts, binding.children@),
        distribute::shares_of(binding, target, site_id, cache) is Ok,
        allocation::policy_of(binding.allocation_policy@) == Some(policy),
        shares_count(
            counts,
            target,
            distribute::children_of(binding.children@, target, site_id, cache)->Ok_0,
            policy,
        ),
    ensures
        ({
            let shares = distribute::shares_of(binding, target, site_id, cache)->Ok_0;
            forall|i: int|
                0 <= i < shares.len() ==> exists|k: int|
                    {
                        let child = #[trigger] binding.children@[k];
                        let share = value((#[trigger] shares[i]).1);
                        &&& 0 <= k < binding.children@.len()
                        &&& child.device_id@ == shares[i].0
                        &&& 0real <= value(target) ==> share <= value(child.power_max) || share
                            <= 0real
                        &&& value(target) < 0real ==> -arithmetic::magnitude(
                            value(child.power_min),
                        ) <= share
                    }
        }),
{
    let children = binding.children@;
    let read = distribute::children_of(children, target, site_id, cache)->Ok_0;
    let served = in_service(read);
    let shares = distribute::shares_of(binding, target, site_id, cache)->Ok_0;
    lemma_children_length(children, target, site_id, cache);
    lemma_eligible_are_in_service(read);
    assert forall|i: int| 0 <= i < served.len() implies counts(
        (#[trigger] served[i]).headroom,
    ) by {
        let k = lemma_served_child(read, i);
        lemma_room_is_by_bounds(value, counts, children, target, site_id, cache, k);
    }
    lemma_no_share_exceeds_headroom(value, counts, target, read, policy);
    assert forall|i: int| 0 <= i < shares.len() implies exists|k: int|
        {
            let child = #[trigger] children[k];
            let share = value((#[trigger] shares[i]).1);
            &&& 0 <= k < children.len()
            &&& child.device_id@ == shares[i].0
            &&& 0real <= value(target) ==> share <= value(child.power_max) || share <= 0real
            &&& value(target) < 0real ==> -arithmetic::magnitude(value(child.power_min)) <= share
        } by {
        let k = lemma_served_child(read, i);
        lemma_room_is_by_bounds(value, counts, children, target, site_id, cache, k);
        lemma_children_are_read(children, target, site_id, cache, k);
        assert(shares[i].0 == children[k].device_id@);
    }
}

/// The operating state of a child as it was heard last, by its nearest integer.
pub open spec fn state_code<N: Scalar>(
    child: ChildAllocation<N>,
    site_id: Seq<char>,
    cache: Map<Seq<char>, u64>,
) -> i64 {
    N::bits_spec(cache[app::site_topic(child.operating_state_topic@, site_id)]).round_spec()
}

/// Who gets a share of a distributed setpoint, by the codes that were heard last:
/// every child whose operating state reads as zero, one or two, standing for
/// standby, charging and discharging, and no other. Without any there are no
/// shares.
pub proof fn lemma_shares_go_by_state_codes<N: Scalar>(
    binding: DistributeBinding<N>,
    target: N,
    site_id: Seq<char>,
    cache: Map<Seq<char>, u64>,
    id: Seq<char>,
)
    requires
        allocation::policy_of(binding.allocation_policy@) is Some,
        distribute::children_of(binding.children@, target, site_id, cache) is Ok,
    ensures
        ({
            let children = binding.children@;
            let result = distribute::shares_of(binding, target, site_id, cache);
            &&& result is Err <==> (forall|k: int|
                0 <= k < children.len() ==> state_code(#[trigger] children[k], site_id, cache) == 3
                    || state_code(children[k], site_id, cache) == 4)
            &&& result matches Ok(shares) ==> ((exists|i: int|
                0 <= i < shares.len() && (#[trigger] shares[i]).0 == id) <==> (exists|k: int|
                0 <= k < children.len() && (#[trigger] children[k]).device_id@ == id && 0
                    <= state_code(children[k], site_id, cache) <= 2))
        }),
{
    let children = binding.children@;
    let policy = allocation::policy_of(binding.allocation_policy@)->0;
    let read = distribute::children_of(children, target, site_id, cache)->Ok_0;
    let given = allocation::allocation(target, read, policy);
    lemma_children_length(children, target, site_id, cache);
    lemma_eligible_are_in_service(read);
    let result = distribute::shares_of(binding, target, site_id, cache);
    assert(result is Err <==> given.len() == 0);
    assert(result is Ok ==> result->Ok_0 == given);
    if exists|i: int| 0 <= i < given.len() && (#[trigger] given[i]).0 == id {
        let i = choose|i: int| 0 <= i < given.len() && (#[trigger] given[i]).0 == id;
        let k = lemma_served_child(read, i);
        lemma_children_are_read(children, target, site_id, cache, k);
        assert(children[k].device_id@ == id);
    }
    if exists|k: int|
        0 <= k < children.len() && (#[trigger] children[k]).device_id@ == id && 0 <= state_code(
            children[k],
            site_id,
            cache,
        ) <= 2 {
        let k = choose|k: int|
            0 <= k < children.len() && (#[trigger] children[k]).device_id@ == id && 0
                <= state_code(children[k], site_id, cache) <= 2;
        lemma_children_are_read(children, target, site_id, cache, k);
        let i = lemma_child_is_served(read, k);
        assert(given[i].0 == id);
    }
    if given.len() > 0 {
        let k = lemma_served_child(read, 0);
        lemma_children_are_read(children, target, site_id, cache, k);
        assert(state_code(children[k], site_id, cache) <= 2);
        assert(result is Ok);
    } else {
        assert forall|k: int| 0 <= k < children.len() implies state_code(
            #[trigger] children[k],
            site_id,
            cache,
        ) == 3 || state_code(children[k], site_id, cache) == 4 by {
            lemma_children_are_read(children, target, site_id, cache, k);
            if state_code(children[k], site_id, cache) <= 2 {
                let i = lemma_child_is_served(read, k);
            }
        }
    }
}

/// Whole shares stay within the power bounds of their children, whatever the numbers are.
pub proof fn lemma_whole_shares_stay_within_power_bounds(
    binding: DistributeBinding<i64>,
    target: i64,
    site_id: Seq<char>,
    cache: Map<Seq<char>, u64>,
    i: int,
)
    requires
        distribute::shares_of(binding, target, site_id, cache) is Ok,
        0 <= i < distribute::shares_of(binding, target, site_id, cache)->Ok_0.len(),
        binding.children@.len() <= usize::MAX,
    ensures
        ({
            let (id, share) = distribute::shares_of(binding, target, site_id, cache)->Ok_0[i];
            exists|k: int|
                {
                    let child = #[trigger] binding.children@[k];
                    &&& 0 <= k < binding.children@.len()
                    &&& child.device_id@ == id
                    &&& 0 <= target ==> share <= child.power_max || share <= 0
                    &&& target < 0 && child.power_min < 0 ==> child.power_min <= share
                    &&& target < 0 && 0 <= child.power_min ==> -child.power_min <= share
                }
        }),
{
    let children = binding.children@;
    let policy = allocation::policy_of(binding.allocation_policy@)->0;
    let read = distribute::children_of(children, target, site_id, cache)->Ok_0;
    let served = in_service(read);
    lemma_children_length(children, target, site_id, cache);
    lemma_eligible_are_in_service(read);
    lemma_in_service_members(read);
    allocation::lemma_shares_within_caps(target, served, policy);
    let plain = allocation::fair_shares(target, served, policy)[i];
    assert(allocation::within_cap(plain, allocation::cap(served[i])));
    let k = lemma_served_child(read, i);
    lemma_children_are_read(children, target, site_id, cache, k);
    lemma_whole_room(children, target, site_id, cache, k);
    let sign = allocation::direction(target);
    if target < 0 {
        assert(sign * plain == -plain) by (nonlinear_arith)
            requires
                sign == -1,
        ;
    } else {
        assert(sign * plain == plain) by (nonlinear_arith)
            requires
                sign == 1,
        ;
    }
    assert(binding.children@[k].device_id@ == distribute::shares_of(
        binding,
        target,
        site_id,
        cache,
    )->Ok_0[i].0);
}

proof fn lemma_whole_room(
    children: Seq<ChildAllocation<i64>>,
    target: i64,
    site_id: Seq<char>,
    cache: Map<Seq<char>, u64>,
    k: int,
)
    requires
        distribute::children_of(children, target, site_id, cache) is Ok,
        0 <= k < children.len(),
    ensures
        ({
            let child = distribute::children_of(children, target, site_id, cache)->Ok_0[k];
            child.headroom == (if target < 0 {
                children[k].power_min.magnitude_spec()
            } else {
                children[k].power_max
            })
        }),
    decreases children.len(),
{
    let init = children.drop_last();
    lemma_children_length(children, target, site_id, cache);
    if k < init.len() {
        lemma_whole_room(init, target, site_id, cache, k);
        assert(init[k] == children[k]);
    }
}

} // verus!
