//! The site's delivered power: the sum over every distribute parent.

use crate::arithmetic;
use crate::mqtt::publisher;
use crate::mqtt::publisher::{sample_payload, Publication};
use crate::scalar;
use crate::scalar::Scalar;
use crate::synthetic::cache::InputCache;
use crate::synthetic::task;
use crate::text;
use vstd::prelude::*;

verus! {

/// Quality of service of the site total.
pub const QOS_MEASUREMENT: i32 = 0;

/// The publisher of the site total.
pub struct DerDispatchTaskConfig<N> {
    /// Where the total goes.
    pub output_topic: String,
    /// The topics that are summed.
    pub source_topics: Vec<String>,
    /// Tick rate in Hz.
    pub tick_hz: N,
}

/// Sum from zero.
pub open spec fn total_of<N: Scalar>(values: Seq<N>) -> N
    decreases values.len(),
{
    if values.len() == 0 {
        scalar::zero()
    } else {
        total_of(values.drop_last()).plus_spec(values.last())
    }
}

/// Sum every topic's latest value; nothing where there are no topics or one
/// has not been heard.
pub fn sum_cached<N: Scalar>(topics: &[String], cache: &InputCache) -> (r: Option<N>)
    ensures
        match r {
            Some(v) => {
                &&& topics@.len() > 0
                &&& task::all_cached(cache@, text::views(topics@))
                &&& v == total_of(task::values::<N>(cache@, text::views(topics@)))
            },
            None => topics@.len() == 0 || !task::all_cached(cache@, text::views(topics@)),
        },
{
    if topics.len() == 0 {
        return None;
    }
    let ghost names = text::views(topics@);
    let ghost all = task::values::<N>(cache@, names);
    let mut total: N = N::from_u64(0);
    let mut i: usize = 0;
    while i < topics.len()
        invariant
            i <= topics@.len(),
            names == text::views(topics@),
            all == task::values::<N>(cache@, names),
            forall|k: int| 0 <= k < i ==> cache@.dom().contains(#[trigger] names[k]),
            total == total_of(all.take(i as int)),
        decreases topics@.len() - i,
    {
        match cache.get::<N>(topics[i].as_str()) {
            Some(v) => {
                total = total.plus(v);
                assert(all.take(i + 1).drop_last() =~= all.take(i as int));
            },
            None => {
                assert(!cache@.dom().contains(names[i as int]));
                return None;
            },
        }
        i = i + 1;
    }
    assert(all.take(i as int) =~= all);
    Some(total)
}

/// One tick: the site total to publish, stamped with `now`; nothing while a
/// source has not been heard.
pub fn tick_once<N: Scalar>(cfg: &DerDispatchTaskConfig<N>, cache: &InputCache, now: &str) -> (r:
    Option<Publication>)
    ensures
        match r {
            Some(p) => {
                let names = text::views(cfg.source_topics@);
                &&& names.len() > 0
                &&& task::all_cached(cache@, names)
                &&& p.topic@ == cfg.output_topic@
                &&& p.payload@ == publisher::sample_text(
                    now@,
                    total_of(task::values::<N>(cache@, names)),
                )
                &&& p.qos == QOS_MEASUREMENT
                &&& p.retained
            },
            None => cfg.source_topics@.len() == 0 || !task::all_cached(
                cache@,
                text::views(cfg.source_topics@),
            ),
        },
{
    match sum_cached::<N>(cfg.source_topics.as_slice(), cache) {
        Some(total) => Some(
            Publication {
                topic: cfg.output_topic.clone(),
                payload: sample_payload(now, total),
                qos: QOS_MEASUREMENT,
                retained: true,
            },
        ),
        None => None,
    }
}

/// Every source's active power counts, and every sum of the first of them.
pub open spec fn sums_count<N: Scalar>(counts: spec_fn(N) -> bool, values: Seq<N>) -> bool {
    &&& counts(scalar::zero())
    &&& forall|i: int| 0 <= i < values.len() ==> counts(#[trigger] values[i])
    &&& forall|n: int| 0 <= n <= values.len() ==> counts(total_of(#[trigger] values.take(n)))
}

proof fn lemma_total_of_prefix<N: Scalar>(
    value: spec_fn(N) -> real,
    counts: spec_fn(N) -> bool,
    values: Seq<N>,
    n: int,
)
    requires
        arithmetic::is_exact(value, counts),
        sums_count(counts, values),
        0 <= n <= values.len(),
    ensures
        value(total_of(values.take(n))) == arithmetic::total(value, values.take(n)),
    decreases n,
{
    if n > 0 {
        lemma_total_of_prefix(value, counts, values, n - 1);
        assert(values.take(n).drop_last() =~= values.take(n - 1));
        assert(values.take(n).last() == values[n - 1]);
        assert(counts(total_of(values.take(n - 1))));
        assert(counts(total_of(values.take(n))));
    } else {
        assert(value(scalar::zero::<N>()) == 0real);
    }
}

/// The site's delivered power is the sum of what was last heard of every source:
/// no source is left out, and none is taken by its size alone.
pub proof fn lemma_site_total_is_the_sum<N: Scalar>(
    value: spec_fn(N) -> real,
    counts: spec_fn(N) -> bool,
    topics: Seq<Seq<char>>,
    cache: Map<Seq<char>, u64>,
)
    requires
        arithmetic::is_exact(value, counts),
        sums_count(counts, task::last_heard::<N>(cache, topics)),
    ensures
        value(total_of(task::values::<N>(cache, topics))) == arithmetic::total(
            task::heard(value, cache),
            topics,
        ),
{
    let all = task::last_heard::<N>(cache, topics);
    assert(task::values::<N>(cache, topics) =~= all);
    lemma_total_of_prefix(value, counts, all, all.len() as int);
    assert(all.take(all.len() as int) =~= all);
    task::lemma_heard_total(value, cache, topics);
}

} // verus!
