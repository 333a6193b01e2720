//! Max-min fair allocation of one setpoint across children with caps of their
//! own: what a capped child leaves over is shared out again among the rest.

use crate::error::{failure_of, GatewayError};
use crate::scalar;
use crate::scalar::Scalar;
use crate::text::same_text;
use vstd::prelude::*;

verus! {

/// Operating state of a child.
#[derive(Debug, Clone, Copy, PartialEq, Eq, Structural)]
pub enum OperatingState {
    /// Idle.
    Standby,
    /// Charging.
    Charging,
    /// Discharging.
    Discharging,
    /// Faulted: gets no share.
    Fault,
    /// Offline: gets no share.
    Offline,
}

/// Whether a state can receive a share.
pub open spec fn eligible(state: OperatingState) -> bool {
    state != OperatingState::Fault && state != OperatingState::Offline
}

impl OperatingState {
    /// Whether this state can receive a share.
    pub fn is_eligible(self) -> (r: bool)
        ensures
            r == eligible(self),
            r <==> self is Standby || self is Charging || self is Discharging,
            !r <==> self is Fault || self is Offline,
    {
        match self {
            OperatingState::Fault | OperatingState::Offline => false,
            _ => true,
        }
    }
}

/// What allocation needs to know of one child.
#[derive(Debug)]
pub struct ChildCapacity<N> {
    /// Device id.
    pub device_id: String,
    /// Current operating state.
    pub operating_state: OperatingState,
    /// Room left in the direction of the requested total.
    pub headroom: N,
    /// State of charge in percent.
    pub state_of_charge: N,
}

/// One child, with its id as a sequence of characters.
pub struct ChildView<N> {
    /// Device id.
    pub device_id: Seq<char>,
    /// Current operating state.
    pub operating_state: OperatingState,
    /// Room left in the direction of the requested total.
    pub headroom: N,
    /// State of charge in percent.
    pub state_of_charge: N,
}

impl<N> View for ChildCapacity<N> {
    type V = ChildView<N>;

    open spec fn view(&self) -> ChildView<N> {
        ChildView {
            device_id: self.device_id@,
            operating_state: self.operating_state,
            headroom: self.headroom,
            state_of_charge: self.state_of_charge,
        }
    }
}

/// The children of a list.
pub open spec fn children_view<N>(children: Seq<ChildCapacity<N>>) -> Seq<ChildView<N>> {
    children.map_values(|c: ChildCapacity<N>| c@)
}

/// Allocation policy.
#[derive(Debug, Clone, Copy, PartialEq, Eq, Structural)]
pub enum AllocationPolicy {
    /// Every eligible child has the same weight.
    EqualSplit,
    /// A discharge leans on the fuller children, a charge on the emptier ones.
    SocWeighted,
}

/// The policy of a name.
pub open spec fn policy_of(name: Seq<char>) -> Option<AllocationPolicy> {
    if name == "equal_split"@ {
        Some(AllocationPolicy::EqualSplit)
    } else if name == "soc_weighted"@ {
        Some(AllocationPolicy::SocWeighted)
    } else {
        None
    }
}

/// What is said of a name that is no policy.
pub open spec fn unknown_policy(name: Seq<char>) -> Seq<char> {
    "unknown allocation policy: "@ + name
}

impl AllocationPolicy {
    /// Read a policy name.
    pub fn parse(name: &str) -> (r: Result<AllocationPolicy, GatewayError>)
        ensures
            match r {
                Ok(p) => policy_of(name@) == Some(p),
                Err(e) => policy_of(name@) is None && e.message@ == unknown_policy(name@),
            },
    {
        if same_text(name, "equal_split") {
            Ok(AllocationPolicy::EqualSplit)
        } else if same_text(name, "soc_weighted") {
            Ok(AllocationPolicy::SocWeighted)
        } else {
            Err(failure_of("unknown allocation policy: ", name))
        }
    }
}

// ---------------------------------------------------------------------
// What allocation computes
// ---------------------------------------------------------------------

/// The children that can receive a share, in order.
pub open spec fn eligible_of<N>(children: Seq<ChildView<N>>) -> Seq<ChildView<N>>
    decreases children.len(),
{
    if children.len() == 0 {
        Seq::empty()
    } else if eligible(children.last().operating_state) {
        eligible_of(children.drop_last()).push(children.last())
    } else {
        eligible_of(children.drop_last())
    }
}

/// Plus or minus one, with the sign of the total.
pub open spec fn direction<N: Scalar>(total: N) -> N {
    if total.below_spec(scalar::zero()) {
        N::int_spec(-1)
    } else {
        scalar::one()
    }
}

/// The weight of one child before it is known whether the weights are usable.
pub open spec fn charge_weight<N: Scalar>(child: ChildView<N>, sign: N) -> N {
    if scalar::zero::<N>().below_spec(sign) {
        child.state_of_charge
    } else {
        N::int_spec(100).minus_spec(child.state_of_charge)
    }
}

/// The weights of the eligible children. Weights by charge that sum to
/// nothing give way to equal ones.
pub open spec fn weights_of<N: Scalar>(
    policy: AllocationPolicy,
    children: Seq<ChildView<N>>,
    sign: N,
) -> Seq<N> {
    let equal = Seq::new(children.len(), |i: int| scalar::one::<N>());
    let charge = Seq::new(children.len(), |i: int| charge_weight(children[i], sign));
    match policy {
        AllocationPolicy::EqualSplit => equal,
        AllocationPolicy::SocWeighted => if scalar::sum_of(charge).at_most_spec(
            N::epsilon_spec(),
        ) {
            equal
        } else {
            charge
        },
    }
}

/// The most that a child can take.
pub open spec fn cap<N: Scalar>(child: ChildView<N>) -> N {
    child.headroom.larger_spec(scalar::zero())
}

/// The caps of the eligible children.
pub open spec fn caps_of<N: Scalar>(children: Seq<ChildView<N>>) -> Seq<N> {
    Seq::new(children.len(), |i: int| cap(children[i]))
}

/// What each child that is still open would get of the demand, by weight.
pub open spec fn proposals<N: Scalar>(weights: Seq<N>, open: Seq<usize>, demand: N) -> Seq<N> {
    let total = scalar::sum_of(Seq::new(open.len(), |k: int| weights[open[k] as int]));
    Seq::new(
        open.len(),
        |k: int|
            demand.times_spec(
                if scalar::zero::<N>().below_spec(total) {
                    weights[open[k] as int].over_spec(total)
                } else {
                    scalar::one::<N>().over_spec(N::int_spec(open.len() as int))
                },
            ),
    )
}

/// Whether a proposal reaches the cap of its child.
pub open spec fn capped<N: Scalar>(caps: Seq<N>, open: Seq<usize>, proposed: Seq<N>, k: int) -> bool {
    caps[open[k] as int].at_most_spec(proposed[k])
}

/// Shares after the first `n` proposals: who reaches their cap gets the cap.
pub open spec fn capped_shares<N: Scalar>(
    caps: Seq<N>,
    open: Seq<usize>,
    proposed: Seq<N>,
    shares: Seq<N>,
    n: int,
) -> Seq<N>
    decreases n,
{
    if n <= 0 {
        shares
    } else if capped(caps, open, proposed, n - 1) {
        capped_shares(caps, open, proposed, shares, n - 1).update(
            open[n - 1] as int,
            caps[open[n - 1] as int],
        )
    } else {
        capped_shares(caps, open, proposed, shares, n - 1)
    }
}

/// Those of the first `n` open children that stay open.
pub open spec fn still_open<N: Scalar>(
    caps: Seq<N>,
    open: Seq<usize>,
    proposed: Seq<N>,
    n: int,
) -> Seq<usize>
    decreases n,
{
    if n <= 0 {
        Seq::empty()
    } else if capped(caps, open, proposed, n - 1) {
        still_open(caps, open, proposed, n - 1)
    } else {
        still_open(caps, open, proposed, n - 1).push(open[n - 1])
    }
}

/// What the capped ones of the first `n` open children take together.
pub open spec fn consumed<N: Scalar>(
    caps: Seq<N>,
    open: Seq<usize>,
    proposed: Seq<N>,
    n: int,
) -> N
    decreases n,
{
    if n <= 0 {
        scalar::zero()
    } else if capped(caps, open, proposed, n - 1) {
        consumed(caps, open, proposed, n - 1).plus_spec(caps[open[n - 1] as int])
    } else {
        consumed(caps, open, proposed, n - 1)
    }
}

/// Shares after the first `n` proposals are granted as they are.
pub open spec fn granted<N>(open: Seq<usize>, proposed: Seq<N>, shares: Seq<N>, n: int) -> Seq<N>
    decreases n,
{
    if n <= 0 {
        shares
    } else {
        granted(open, proposed, shares, n - 1).update(open[n - 1] as int, proposed[n - 1])
    }
}

pub(crate) proof fn lemma_still_open_shrinks<N: Scalar>(
    caps: Seq<N>,
    open: Seq<usize>,
    proposed: Seq<N>,
    n: int,
)
    requires
        0 <= n <= open.len(),
    ensures
        still_open(caps, open, proposed, n).len() <= n,
        still_open(caps, open, proposed, n).len() == n <==> (forall|k: int|
            0 <= k < n ==> !capped(caps, open, proposed, k)),
    decreases n,
{
    if n > 0 {
        lemma_still_open_shrinks(caps, open, proposed, n - 1);
        if capped(caps, open, proposed, n - 1) {
            assert(!(forall|k: int| 0 <= k < n ==> !capped(caps, open, proposed, k)));
        }
    }
}

/// Shares when the rounds have settled. While there is demand and an open
/// child: where no proposal reaches a cap all are granted and that is the
/// end; else the capped children get their caps, leave, and the rest of the
/// demand is proposed anew to the others.
pub open spec fn settled<N: Scalar>(
    weights: Seq<N>,
    caps: Seq<N>,
    shares: Seq<N>,
    open: Seq<usize>,
    demand: N,
) -> Seq<N>
    decreases open.len(),
{
    let proposed = proposals(weights, open, demand);
    let n = open.len() as int;
    let rest = still_open(caps, open, proposed, n);
    if !N::epsilon_spec().below_spec(demand) || open.len() == 0 {
        shares
    } else if rest.len() >= open.len() {
        granted(open, proposed, shares, n)
    } else {
        settled(
            weights,
            caps,
            capped_shares(caps, open, proposed, shares, n),
            rest,
            demand.minus_spec(consumed(caps, open, proposed, n)),
        )
    }
}

/// The numbers 0 to `n`, exclusive.
pub open spec fn indices(n: nat) -> Seq<usize> {
    Seq::new(n, |i: int| i as usize)
}

/// The unsigned shares of the eligible children.
pub open spec fn fair_shares<N: Scalar>(
    total: N,
    eligible: Seq<ChildView<N>>,
    policy: AllocationPolicy,
) -> Seq<N> {
    settled(
        weights_of(policy, eligible, direction(total)),
        caps_of(eligible),
        Seq::new(eligible.len(), |i: int| scalar::zero::<N>()),
        indices(eligible.len()),
        total.magnitude_spec(),
    )
}

/// What allocation returns: each eligible child with its share, which has the
/// sign of the total.
pub open spec fn allocation<N: Scalar>(
    total: N,
    children: Seq<ChildView<N>>,
    policy: AllocationPolicy,
) -> Seq<(Seq<char>, N)> {
    let e = eligible_of(children);
    let shares = fair_shares(total, e, policy);
    Seq::new(
        e.len(),
        |i: int| (e[i].device_id, direction(total).times_spec(shares[i])),
    )
}

/// Shares with their device ids as sequences of characters.
pub open spec fn shares_view<N>(shares: Seq<(String, N)>) -> Seq<(Seq<char>, N)> {
    shares.map_values(|p: (String, N)| (p.0@, p.1))
}

// ---------------------------------------------------------------------
// Laws
// ---------------------------------------------------------------------

/// Indices into a sequence of a given length, none twice.
pub open spec fn proper(open: Seq<usize>, len: nat) -> bool {
    &&& forall|k: int| 0 <= k < open.len() ==> (#[trigger] open[k]) < len
    &&& forall|j: int, k: int| 0 <= j < k < open.len() ==> open[j] != open[k]
}

pub(crate) proof fn lemma_still_open_proper<N: Scalar>(
    caps: Seq<N>,
    open: Seq<usize>,
    proposed: Seq<N>,
    n: int,
    len: nat,
)
    requires
        0 <= n <= open.len(),
        proper(open, len),
    ensures
        proper(still_open(caps, open, proposed, n), len),
        forall|j: int|
            0 <= j < still_open(caps, open, proposed, n).len() ==> exists|k: int|
                0 <= k < n && #[trigger] open[k] == (#[trigger] still_open(
                    caps,
                    open,
                    proposed,
                    n,
                )[j]),
    decreases n,
{
    if n > 0 {
        lemma_still_open_proper(caps, open, proposed, n - 1, len);
        let before = still_open(caps, open, proposed, n - 1);
        let after = still_open(caps, open, proposed, n);
        if !capped(caps, open, proposed, n - 1) {
            assert(after == before.push(open[n - 1]));
            assert forall|j: int, k: int| 0 <= j < k < after.len() implies after[j]
                != after[k] by {
                if k == before.len() {
                    let m = choose|m: int| 0 <= m < n - 1 && #[trigger] open[m] == before[j];
                    assert(open[m] != open[n - 1]);
                }
            }
            assert forall|j: int| 0 <= j < after.len() implies exists|k: int|
                0 <= k < n && #[trigger] open[k] == (#[trigger] after[j]) by {
                if j < before.len() {
                    let m = choose|m: int| 0 <= m < n - 1 && #[trigger] open[m] == before[j];
                    assert(open[m] == after[j]);
                } else {
                    assert(open[n - 1] == after[j]);
                }
            }
        } else {
            assert forall|j: int| 0 <= j < after.len() implies exists|k: int|
                0 <= k < n && #[trigger] open[k] == (#[trigger] after[j]) by {
                let m = choose|m: int| 0 <= m < n - 1 && #[trigger] open[m] == before[j];
                assert(open[m] == after[j]);
            }
        }
    }
}

/// A share that its child can take: nothing, the cap, or less than the cap.
pub open spec fn within_cap<N: Scalar>(share: N, cap: N) -> bool {
    share == scalar::zero::<N>() || share == cap || !cap.at_most_spec(share)
}

proof fn lemma_capped_shares_within<N: Scalar>(
    caps: Seq<N>,
    open: Seq<usize>,
    proposed: Seq<N>,
    shares: Seq<N>,
    n: int,
)
    requires
        0 <= n <= open.len(),
        shares.len() == caps.len(),
        forall|k: int| 0 <= k < open.len() ==> (#[trigger] open[k]) < caps.len(),
        forall|i: int| 0 <= i < caps.len() ==> within_cap(#[trigger] shares[i], caps[i]),
    ensures
        capped_shares(caps, open, proposed, shares, n).len() == caps.len(),
        forall|i: int|
            0 <= i < caps.len() ==> within_cap(
                #[trigger] capped_shares(caps, open, proposed, shares, n)[i],
                caps[i],
            ),
    decreases n,
{
    if n > 0 {
        lemma_capped_shares_within(caps, open, proposed, shares, n - 1);
    }
}

proof fn lemma_granted_within<N: Scalar>(
    caps: Seq<N>,
    open: Seq<usize>,
    proposed: Seq<N>,
    shares: Seq<N>,
    n: int,
)
    requires
        0 <= n <= open.len(),
        shares.len() == caps.len(),
        forall|k: int| 0 <= k < open.len() ==> (#[trigger] open[k]) < caps.len(),
        forall|k: int| 0 <= k < open.len() ==> !capped(caps, open, proposed, k),
        forall|i: int| 0 <= i < caps.len() ==> within_cap(#[trigger] shares[i], caps[i]),
    ensures
        granted(open, proposed, shares, n).len() == caps.len(),
        forall|i: int|
            0 <= i < caps.len() ==> within_cap(
                #[trigger] granted(open, proposed, shares, n)[i],
                caps[i],
            ),
    decreases n,
{
    if n > 0 {
        lemma_granted_within(caps, open, proposed, shares, n - 1);
        assert(!capped(caps, open, proposed, n - 1));
    }
}

proof fn lemma_settled_within<N: Scalar>(
    weights: Seq<N>,
    caps: Seq<N>,
    shares: Seq<N>,
    open: Seq<usize>,
    demand: N,
)
    requires
        shares.len() == caps.len(),
        proper(open, caps.len()),
        forall|i: int| 0 <= i < caps.len() ==> within_cap(#[trigger] shares[i], caps[i]),
    ensures
        settled(weights, caps, shares, open, demand).len() == caps.len(),
        forall|i: int|
            0 <= i < caps.len() ==> within_cap(
                #[trigger] settled(weights, caps, shares, open, demand)[i],
                caps[i],
            ),
    decreases open.len(),
{
    let proposed = proposals(weights, open, demand);
    let n = open.len() as int;
    let rest = still_open(caps, open, proposed, n);
    lemma_still_open_shrinks(caps, open, proposed, n);
    lemma_still_open_proper(caps, open, proposed, n, caps.len());
    if !N::epsilon_spec().below_spec(demand) || open.len() == 0 {
    } else if rest.len() >= open.len() {
        lemma_granted_within(caps, open, proposed, shares, n);
    } else {
        lemma_capped_shares_within(caps, open, proposed, shares, n);
        lemma_settled_within(
            weights,
            caps,
            capped_shares(caps, open, proposed, shares, n),
            rest,
            demand.minus_spec(consumed(caps, open, proposed, n)),
        );
    }
}

/// No child is given more than it can take: before the sign is applied, every
/// share is nothing, the child's cap, or less than the cap.
pub proof fn lemma_shares_within_caps<N: Scalar>(
    total: N,
    eligible: Seq<ChildView<N>>,
    policy: AllocationPolicy,
)
    requires
        eligible.len() <= usize::MAX,
    ensures
        fair_shares(total, eligible, policy).len() == eligible.len(),
        forall|i: int|
            0 <= i < eligible.len() ==> within_cap(
                #[trigger] fair_shares(total, eligible, policy)[i],
                cap(eligible[i]),
            ),
{
    let caps = caps_of(eligible);
    let zeros = Seq::new(eligible.len(), |i: int| scalar::zero::<N>());
    assert(proper(indices(eligible.len()), caps.len()));
    assert forall|i: int| 0 <= i < caps.len() implies within_cap(#[trigger] zeros[i], caps[i]) by {}
    lemma_settled_within(
        weights_of(policy, eligible, direction(total)),
        caps,
        zeros,
        indices(eligible.len()),
        total.magnitude_spec(),
    );
    assert forall|i: int| 0 <= i < eligible.len() implies within_cap(
        #[trigger] fair_shares(total, eligible, policy)[i],
        cap(eligible[i]),
    ) by {
        assert(caps[i] == cap(eligible[i]));
    }
}

/// Whether an index is among the open ones.
pub open spec fn is_open(open: Seq<usize>, x: int) -> bool {
    exists|k: int| 0 <= k < open.len() && #[trigger] open[k] == x
}

pub(crate) proof fn lemma_open_child<N: Scalar>(
    caps: Seq<N>,
    open: Seq<usize>,
    proposed: Seq<N>,
    shares: Seq<N>,
    n: int,
    k: int,
)
    requires
        0 <= n <= open.len(),
        0 <= k < open.len(),
        shares.len() == caps.len(),
        proper(open, caps.len()),
    ensures
        granted(open, proposed, shares, n).len() == caps.len(),
        capped_shares(caps, open, proposed, shares, n).len() == caps.len(),
        granted(open, proposed, shares, n)[open[k] as int] == (if k < n {
            proposed[k]
        } else {
            shares[open[k] as int]
        }),
        capped_shares(caps, open, proposed, shares, n)[open[k] as int] == (if k < n && capped(
            caps,
            open,
            proposed,
            k,
        ) {
            caps[open[k] as int]
        } else {
            shares[open[k] as int]
        }),
        is_open(still_open(caps, open, proposed, n), open[k] as int) <==> k < n && !capped(
            caps,
            open,
            proposed,
            k,
        ),
    decreases n,
{
    if n > 0 {
        lemma_open_child(caps, open, proposed, shares, n - 1, k);
        assert(open[n - 1] < caps.len());
        let before = still_open(caps, open, proposed, n - 1);
        let after = still_open(caps, open, proposed, n);
        let x = open[k] as int;
        if n - 1 != k {
            if k < n - 1 {
                assert(open[k] != open[n - 1]);
            } else {
                assert(open[n - 1] != open[k]);
            }
        }
        if !capped(caps, open, proposed, n - 1) {
            assert(after == before.push(open[n - 1]));
            if is_open(before, x) {
                let m = choose|m: int| 0 <= m < before.len() && #[trigger] before[m] == x;
                assert(after[m] == x);
            }
            if n - 1 == k {
                assert(after[before.len() as int] == x);
            }
            if is_open(after, x) && n - 1 != k {
                let m = choose|m: int| 0 <= m < after.len() && #[trigger] after[m] == x;
                assert(before[m] == x);
            }
        }
    }
}

pub(crate) proof fn lemma_closed_child<N: Scalar>(
    caps: Seq<N>,
    open: Seq<usize>,
    proposed: Seq<N>,
    shares: Seq<N>,
    n: int,
    x: int,
)
    requires
        0 <= n <= open.len(),
        0 <= x < caps.len(),
        shares.len() == caps.len(),
        proper(open, caps.len()),
        !is_open(open, x),
    ensures
        granted(open, proposed, shares, n).len() == caps.len(),
        capped_shares(caps, open, proposed, shares, n).len() == caps.len(),
        granted(open, proposed, shares, n)[x] == shares[x],
        capped_shares(caps, open, proposed, shares, n)[x] == shares[x],
        !is_open(still_open(caps, open, proposed, n), x),
    decreases n,
{
    if n > 0 {
        lemma_closed_child(caps, open, proposed, shares, n - 1, x);
        assert(open[n - 1] < caps.len());
        assert(open[n - 1] != x);
        let before = still_open(caps, open, proposed, n - 1);
        let after = still_open(caps, open, proposed, n);
        if is_open(after, x) {
            let m = choose|m: int| 0 <= m < after.len() && #[trigger] after[m] == x;
            assert(before[m] == x);
        }
    }
}

/// A child that is still open has nothing yet; one that is not has its cap.
pub open spec fn is_pending<N: Scalar>(caps: Seq<N>, shares: Seq<N>, open: Seq<usize>, x: int) -> bool {
    if is_open(open, x) {
        shares[x] == scalar::zero::<N>()
    } else {
        shares[x] == caps[x]
    }
}

pub(crate) proof fn lemma_pending_round<N: Scalar>(
    caps: Seq<N>,
    open: Seq<usize>,
    proposed: Seq<N>,
    shares: Seq<N>,
    x: int,
)
    requires
        0 <= x < caps.len(),
        shares.len() == caps.len(),
        proper(open, caps.len()),
        is_pending(caps, shares, open, x),
    ensures
        is_pending(
            caps,
            capped_shares(caps, open, proposed, shares, open.len() as int),
            still_open(caps, open, proposed, open.len() as int),
            x,
        ),
        capped_shares(caps, open, proposed, shares, open.len() as int).len() == caps.len(),
{
    let n = open.len() as int;
    if is_open(open, x) {
        let k = choose|k: int| 0 <= k < open.len() && #[trigger] open[k] == x;
        lemma_open_child(caps, open, proposed, shares, n, k);
    } else {
        lemma_closed_child(caps, open, proposed, shares, n, x);
    }
}

proof fn lemma_settled_fair<N: Scalar>(
    weights: Seq<N>,
    caps: Seq<N>,
    shares: Seq<N>,
    open: Seq<usize>,
    demand: N,
    i: int,
    j: int,
)
    requires
        0 <= i < caps.len(),
        0 <= j < caps.len(),
        weights[i] == weights[j],
        shares.len() == caps.len(),
        proper(open, caps.len()),
        is_pending(caps, shares, open, i),
        is_pending(caps, shares, open, j),
    ensures
        ({
            let s = settled(weights, caps, shares, open, demand);
            s[i] == caps[i] || s[j] == caps[j] || s[i] == s[j]
        }),
    decreases open.len(),
{
    let proposed = proposals(weights, open, demand);
    let n = open.len() as int;
    let rest = still_open(caps, open, proposed, n);
    lemma_still_open_shrinks(caps, open, proposed, n);
    lemma_still_open_proper(caps, open, proposed, n, caps.len());
    if !N::epsilon_spec().below_spec(demand) || open.len() == 0 {
    } else if rest.len() >= open.len() {
        if is_open(open, i) && is_open(open, j) {
            let k = choose|k: int| 0 <= k < open.len() && #[trigger] open[k] == i;
            let m = choose|m: int| 0 <= m < open.len() && #[trigger] open[m] == j;
            lemma_open_child(caps, open, proposed, shares, n, k);
            lemma_open_child(caps, open, proposed, shares, n, m);
            assert(proposed[k] == proposed[m]);
        } else if !is_open(open, i) {
            lemma_closed_child(caps, open, proposed, shares, n, i);
        } else {
            lemma_closed_child(caps, open, proposed, shares, n, j);
        }
    } else {
        lemma_pending_round(caps, open, proposed, shares, i);
        lemma_pending_round(caps, open, proposed, shares, j);
        lemma_settled_fair(
            weights,
            caps,
            capped_shares(caps, open, proposed, shares, n),
            rest,
            demand.minus_spec(consumed(caps, open, proposed, n)),
            i,
            j,
        );
    }
}

/// Allocation is fair: of two children with the same weight, either both get
/// the same share, or one of them is at its cap. Under an equal split all
/// children have the same weight.
pub proof fn lemma_shares_are_fair<N: Scalar>(
    total: N,
    eligible: Seq<ChildView<N>>,
    policy: AllocationPolicy,
    i: int,
    j: int,
)
    requires
        eligible.len() <= usize::MAX,
        0 <= i < eligible.len(),
        0 <= j < eligible.len(),
    ensures
        ({
            let w = weights_of(policy, eligible, direction(total));
            let s = fair_shares(total, eligible, policy);
            &&& policy == AllocationPolicy::EqualSplit ==> w[i] == w[j]
            &&& w[i] == w[j] ==> s[i] == cap(eligible[i]) || s[j] == cap(eligible[j]) || s[i]
                == s[j]
        }),
{
    let w = weights_of(policy, eligible, direction(total));
    let caps = caps_of(eligible);
    let zeros = Seq::new(eligible.len(), |i: int| scalar::zero::<N>());
    let all = indices(eligible.len());
    assert(proper(all, caps.len()));
    assert(all[i] == i && all[j] == j);
    if w[i] == w[j] {
        lemma_settled_fair(w, caps, zeros, all, total.magnitude_spec(), i, j);
    }
}

/// Whether some child with this id can receive a share.
pub open spec fn has_eligible<N>(children: Seq<ChildView<N>>, id: Seq<char>) -> bool {
    exists|k: int|
        0 <= k < children.len() && eligible((#[trigger] children[k]).operating_state)
            && children[k].device_id == id
}

/// Whether some share goes to this id.
pub open spec fn is_given<N>(shares: Seq<(Seq<char>, N)>, id: Seq<char>) -> bool {
    exists|i: int| 0 <= i < shares.len() && (#[trigger] shares[i]).0 == id
}

/// Exactly the children that can receive a share are given one: a faulted or
/// offline child never appears, and no other child is left out.
pub proof fn lemma_allocation_only_eligible<N: Scalar>(
    total: N,
    children: Seq<ChildView<N>>,
    policy: AllocationPolicy,
    id: Seq<char>,
)
    ensures
        is_given(allocation(total, children, policy), id) <==> has_eligible(children, id),
        allocation(total, children, policy).len() <= children.len(),
{
    let e = eligible_of(children);
    let r = allocation(total, children, policy);
    lemma_eligible_of(children, id);
    if is_given(r, id) {
        let i = choose|i: int| 0 <= i < r.len() && (#[trigger] r[i]).0 == id;
        assert(e[i].device_id == id);
    }
    if has_id(e, id) {
        let i = choose|i: int| 0 <= i < e.len() && (#[trigger] e[i]).device_id == id;
        assert(r[i].0 == id);
    }
}

spec fn has_id<N>(children: Seq<ChildView<N>>, id: Seq<char>) -> bool {
    exists|i: int| 0 <= i < children.len() && (#[trigger] children[i]).device_id == id
}

proof fn lemma_eligible_of<N>(children: Seq<ChildView<N>>, id: Seq<char>)
    ensures
        eligible_of(children).len() <= children.len(),
        has_id(eligible_of(children), id) <==> has_eligible(children, id),
    decreases children.len(),
{
    if children.len() > 0 {
        let init = children.drop_last();
        let e = eligible_of(children);
        let ei = eligible_of(init);
        lemma_eligible_of(init, id);
        if has_id(e, id) {
            let i = choose|i: int| 0 <= i < e.len() && (#[trigger] e[i]).device_id == id;
            if i < ei.len() {
                assert(ei[i].device_id == id);
                let k = choose|k: int|
                    0 <= k < init.len() && eligible((#[trigger] init[k]).operating_state)
                        && init[k].device_id == id;
                assert(eligible(children[k].operating_state));
            } else {
                assert(eligible(children[children.len() - 1].operating_state));
            }
        }
        if has_eligible(children, id) {
            let k = choose|k: int|
                0 <= k < children.len() && eligible((#[trigger] children[k]).operating_state)
                    && children[k].device_id == id;
            if k < init.len() {
                assert(eligible(init[k].operating_state));
                let i = choose|i: int| 0 <= i < ei.len() && (#[trigger] ei[i]).device_id == id;
                assert(e[i].device_id == id);
            } else {
                assert(e[e.len() - 1].device_id == id);
            }
        }
    }
}

// ---------------------------------------------------------------------
// Allocation
// ---------------------------------------------------------------------

fn ones<N: Scalar>(n: usize) -> (r: Vec<N>)
    ensures
        r@ == Seq::new(n as nat, |i: int| scalar::one::<N>()),
{
    let mut r: Vec<N> = Vec::new();
    let mut i: usize = 0;
    while i < n
        invariant
            i <= n,
            r@ == Seq::new(i as nat, |i: int| scalar::one::<N>()),
        decreases n - i,
    {
        r.push(N::from_u64(1));
        i = i + 1;
        assert(r@ =~= Seq::new(i as nat, |i: int| scalar::one::<N>()));
    }
    r
}

/// The children behind a list of references.
pub open spec fn deref_all<N>(children: Seq<&ChildCapacity<N>>) -> Seq<ChildView<N>> {
    children.map_values(|c: &ChildCapacity<N>| c@)
}

/// Per-child weights, in the order of `eligible`.
pub fn policy_weights<N: Scalar>(
    policy: AllocationPolicy,
    eligible: &Vec<&ChildCapacity<N>>,
    sign: N,
) -> (r: Vec<N>)
    ensures
        r@ == weights_of(policy, deref_all(eligible@), sign),
{
    let ghost children = deref_all(eligible@);
    if eligible.len() == 0 {
        let none: Vec<N> = Vec::new();
        assert(none@ =~= weights_of(policy, children, sign));
        return none;
    }
    match policy {
        AllocationPolicy::EqualSplit => ones(eligible.len()),
        AllocationPolicy::SocWeighted => {
            let mut raw: Vec<N> = Vec::new();
            let mut i: usize = 0;
            while i < eligible.len()
                invariant
                    i <= eligible@.len(),
                    children == deref_all(eligible@),
                    raw@ == Seq::new(i as nat, |k: int| charge_weight(children[k], sign)),
                decreases eligible@.len() - i,
            {
                let w: N = if N::from_u64(0).below(sign) {
                    eligible[i].state_of_charge
                } else {
                    N::from_u64(100).minus(eligible[i].state_of_charge)
                };
                raw.push(w);
                i = i + 1;
                assert(raw@ =~= Seq::new(i as nat, |k: int| charge_weight(children[k], sign)));
            }
            assert(raw@ =~= Seq::new(
                children.len(),
                |k: int| charge_weight(children[k], sign),
            ));
            if scalar::sum(raw.as_slice()).at_most(N::epsilon()) {
                ones(eligible.len())
            } else {
                raw
            }
        },
    }
}

fn propose<N: Scalar>(weights: &Vec<N>, open: &Vec<usize>, demand: N) -> (r: Vec<N>)
    requires
        open@.len() > 0,
        forall|k: int| 0 <= k < open@.len() ==> (#[trigger] open@[k]) < weights@.len(),
    ensures
        r@ == proposals(weights@, open@, demand),
{
    let mut picked: Vec<N> = Vec::new();
    let mut k: usize = 0;
    while k < open.len()
        invariant
            k <= open@.len(),
            forall|k: int| 0 <= k < open@.len() ==> (#[trigger] open@[k]) < weights@.len(),
            picked@ == Seq::new(k as nat, |j: int| weights@[open@[j] as int]),
        decreases open@.len() - k,
    {
        picked.push(weights[open[k]]);
        k = k + 1;
        assert(picked@ =~= Seq::new(k as nat, |j: int| weights@[open@[j] as int]));
    }
    assert(picked@ =~= Seq::new(open@.len(), |j: int| weights@[open@[j] as int]));
    let total = scalar::sum(picked.as_slice());
    let ghost all = proposals(weights@, open@, demand);
    let mut r: Vec<N> = Vec::new();
    k = 0;
    while k < open.len()
        invariant
            k <= open@.len(),
            forall|k: int| 0 <= k < open@.len() ==> (#[trigger] open@[k]) < weights@.len(),
            total == scalar::sum_of(Seq::new(open@.len(), |j: int| weights@[open@[j] as int])),
            all == proposals(weights@, open@, demand),
            r@ == all.take(k as int),
        decreases open@.len() - k,
    {
        let fraction: N = if N::from_u64(0).below(total) {
            weights[open[k]].over(total)
        } else {
            N::from_u64(1).over(N::from_u64(open.len() as u64))
        };
        r.push(demand.times(fraction));
        assert(all.take(k + 1) =~= all.take(k as int).push(all[k as int]));
        k = k + 1;
    }
    assert(all.take(k as int) =~= all);
    r
}

/// Allocate `total` across `children` by `policy`.
#[verifier::rlimit(40)]
pub fn allocate<N: Scalar>(
    total: N,
    children: &[ChildCapacity<N>],
    policy: AllocationPolicy,
) -> (r: Vec<(String, N)>)
    ensures
        shares_view(r@) == allocation(total, children_view(children@), policy),
{
    let ghost all = children_view(children@);
    let mut chosen: Vec<&ChildCapacity<N>> = Vec::new();
    let mut i: usize = 0;
    while i < children.len()
        invariant
            i <= children@.len(),
            all == children_view(children@),
            deref_all(chosen@) == eligible_of(all.take(i as int)),
        decreases children@.len() - i,
    {
        assert(all.take(i + 1).drop_last() =~= all.take(i as int));
        if children[i].operating_state.is_eligible() {
            let ghost before = chosen@;
            chosen.push(&children[i]);
            assert(deref_all(chosen@) =~= deref_all(before).push(all[i as int]));
        }
        i = i + 1;
    }
    assert(all.take(i as int) =~= all);
    let ghost e = eligible_of(all);
    assert(deref_all(chosen@) == e);
    assert(chosen@.len() == e.len());
    let mut out: Vec<(String, N)> = Vec::new();
    if chosen.len() == 0 {
        assert(shares_view(out@) =~= allocation(total, all, policy));
        return out;
    }
    let sign: N = if total.below(N::from_u64(0)) {
        N::from_i64(-1)
    } else {
        N::from_u64(1)
    };
    let weights = policy_weights(policy, &chosen, sign);
    let mut caps: Vec<N> = Vec::new();
    let mut shares: Vec<N> = Vec::new();
    let mut open: Vec<usize> = Vec::new();
    i = 0;
    while i < chosen.len()
        invariant
            i <= chosen@.len(),
            e == deref_all(chosen@),
            caps@ == caps_of(e).take(i as int),
            shares@ == Seq::new(i as nat, |k: int| scalar::zero::<N>()),
            open@ == indices(i as nat),
        decreases chosen@.len() - i,
    {
        caps.push(chosen[i].headroom.larger(N::from_u64(0)));
        shares.push(N::from_u64(0));
        open.push(i);
        assert(caps_of(e).take(i + 1) =~= caps_of(e).take(i as int).push(caps_of(e)[i as int]));
        i = i + 1;
        assert(shares@ =~= Seq::new(i as nat, |k: int| scalar::zero::<N>()));
        assert(open@ =~= indices(i as nat));
    }
    assert(caps@ =~= caps_of(e));
    assert(shares@ =~= Seq::new(e.len(), |k: int| scalar::zero::<N>()));
    assert(open@ =~= indices(e.len()));
    let mut demand: N = total.magnitude();
    let ghost goal = fair_shares(total, e, policy);
    let mut done = false;
    while !done && N::epsilon().below(demand) && open.len() > 0
        invariant
            done ==> shares@ == goal,
            !done ==> settled(weights@, caps@, shares@, open@, demand) == goal,
            weights@.len() == e.len(),
            caps@.len() == e.len(),
            shares@.len() == e.len(),
            forall|k: int| 0 <= k < open@.len() ==> (#[trigger] open@[k]) < e.len(),
        decreases (if done { 0int } else { 1int }), open@.len(),
    {
        let proposed = propose(&weights, &open, demand);
        let ghost start = shares@;
        let ghost n = open@.len() as int;
        proof {
            lemma_still_open_shrinks(caps@, open@, proposed@, n);
        }
        let mut rest: Vec<usize> = Vec::new();
        let mut taken: N = N::from_u64(0);
        let mut any_capped = false;
        let mut k: usize = 0;
        while k < open.len()
            invariant
                k <= open@.len(),
                proposed@.len() == open@.len(),
                caps@.len() == e.len(),
                shares@.len() == e.len(),
                start.len() == e.len(),
                forall|k: int| 0 <= k < open@.len() ==> (#[trigger] open@[k]) < e.len(),
                forall|k: int| 0 <= k < rest@.len() ==> (#[trigger] rest@[k]) < e.len(),
                shares@ == capped_shares(caps@, open@, proposed@, start, k as int),
                rest@ == still_open(caps@, open@, proposed@, k as int),
                taken == consumed(caps@, open@, proposed@, k as int),
                any_capped == (exists|j: int| 0 <= j < k && capped(caps@, open@, proposed@, j)),
                !any_capped ==> shares@ == start,
            decreases open@.len() - k,
        {
            let index: usize = open[k];
            let most: N = caps[index];
            if most.at_most(proposed[k]) {
                assert(capped(caps@, open@, proposed@, k as int));
                shares.set(index, most);
                taken = taken.plus(most);
                any_capped = true;
            } else {
                rest.push(index);
            }
            k = k + 1;
        }
        if any_capped {
            demand = demand.minus(taken);
            open = rest;
        } else {
            k = 0;
            while k < open.len()
                invariant
                    k <= open@.len(),
                    proposed@.len() == open@.len(),
                    shares@.len() == e.len(),
                    forall|k: int| 0 <= k < open@.len() ==> (#[trigger] open@[k]) < e.len(),
                    shares@ == granted(open@, proposed@, start, k as int),
                decreases open@.len() - k,
            {
                let index: usize = open[k];
                shares.set(index, proposed[k]);
                k = k + 1;
            }
            done = true;
        }
    }
    assert(shares@ == goal);
    i = 0;
    let ghost result = allocation(total, all, policy);
    while i < chosen.len()
        invariant
            i <= chosen@.len(),
            e == deref_all(chosen@),
            e == eligible_of(all),
            shares@ == goal,
            shares@.len() == e.len(),
            goal == fair_shares(total, e, policy),
            sign == direction(total),
            result == allocation(total, all, policy),
            shares_view(out@) == result.take(i as int),
        decreases chosen@.len() - i,
    {
        let ghost before = out@;
        out.push((chosen[i].device_id.clone(), sign.times(shares[i])));
        assert(shares_view(out@) =~= shares_view(before).push(result[i as int]));
        assert(result.take(i + 1) =~= result.take(i as int).push(result[i as int]));
        i = i + 1;
    }
    assert(result.take(i as int) =~= result);
    out
}

} // verus!
