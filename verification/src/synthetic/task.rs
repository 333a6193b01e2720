//! One synthetic channel: from cached inputs to a sample to publish.

use crate::arithmetic;
use crate::error::GatewayError;
use crate::mqtt::publisher;
use crate::mqtt::publisher::{sample_payload, Publication};
use crate::scalar;
use crate::scalar::Scalar;
use crate::synthetic::cache;
use crate::synthetic::cache::InputCache;
use crate::synthetic::operation;
use crate::synthetic::operation::{weighted_mean, Operation};
use crate::text;
use vstd::prelude::*;

verus! {

/// Quality of service of measurements.
pub const QOS_MEASUREMENT: i32 = 0;

/// What a synthetic channel computes on every tick.
pub enum Computation<N> {
    /// An operation on the values of some topics, in order.
    Operation {
        /// The operation.
        operation: Operation,
        /// The topics.
        input_topics: Vec<String>,
    },
    /// The weighted mean of the values of some topics.
    WeightedMean {
        /// The topics with their weights.
        pairs: Vec<(String, N)>,
    },
}

/// One synthetic channel.
pub struct SyntheticTaskConfig<N> {
    /// Where samples go.
    pub output_topic: String,
    /// What is computed.
    pub computation: Computation<N>,
    /// Tick rate in Hz.
    pub tick_hz: N,
}

/// Every topic has been heard.
pub open spec fn all_cached(cache: Map<Seq<char>, u64>, topics: Seq<Seq<char>>) -> bool {
    forall|i: int| 0 <= i < topics.len() ==> cache.dom().contains(#[trigger] topics[i])
}

/// The latest values of topics that have been heard.
pub open spec fn values<N: Scalar>(cache: Map<Seq<char>, u64>, topics: Seq<Seq<char>>) -> Seq<N> {
    Seq::new(topics.len(), |i: int| N::bits_spec(cache[topics[i]]))
}

/// The topics of topic-weight pairs.
pub open spec fn pair_topics<N>(pairs: Seq<(String, N)>) -> Seq<Seq<char>> {
    pairs.map_values(|p: (String, N)| p.0@)
}

/// The latest values of pairs' topics, with the pairs' weights.
pub open spec fn value_weights<N: Scalar>(
    cache: Map<Seq<char>, u64>,
    pairs: Seq<(String, N)>,
) -> Seq<(N, N)> {
    Seq::new(pairs.len(), |i: int| (N::bits_spec(cache[pairs[i].0@]), pairs[i].1))
}

/// The values of every topic, or nothing where one has not been heard.
pub fn gather_inputs<N: Scalar>(input_topics: &[String], cache: &InputCache) -> (r: Option<Vec<N>>)
    ensures
        match r {
            Some(v) => all_cached(cache@, text::views(input_topics@)) && v@ == values::<N>(
                cache@,
                text::views(input_topics@),
            ),
            None => !all_cached(cache@, text::views(input_topics@)),
        },
{
    let ghost topics = text::views(input_topics@);
    let mut out: Vec<N> = Vec::new();
    let mut i: usize = 0;
    while i < input_topics.len()
        invariant
            i <= input_topics@.len(),
            topics == text::views(input_topics@),
            forall|k: int| 0 <= k < i ==> cache@.dom().contains(#[trigger] topics[k]),
            out@ == values::<N>(cache@, topics).take(i as int),
        decreases input_topics@.len() - i,
    {
        match cache.get::<N>(input_topics[i].as_str()) {
            Some(v) => {
                out.push(v);
                assert(values::<N>(cache@, topics).take(i + 1) =~= values::<N>(
                    cache@,
                    topics,
                ).take(i as int).push(values::<N>(cache@, topics)[i as int]));
            },
            None => {
                assert(!cache@.dom().contains(topics[i as int]));
                return None;
            },
        }
        i = i + 1;
    }
    assert(out@ =~= values::<N>(cache@, topics));
    Some(out)
}

/// The value and weight of every pair, or nothing where a pair's topic has
/// not been heard.
pub fn gather_pairs<N: Scalar>(pairs: &[(String, N)], cache: &InputCache) -> (r: Option<
    Vec<(N, N)>,
>)
    ensures
        match r {
            Some(v) => all_cached(cache@, pair_topics(pairs@)) && v@ == value_weights(
                cache@,
                pairs@,
            ),
            None => !all_cached(cache@, pair_topics(pairs@)),
        },
{
    let ghost topics = pair_topics(pairs@);
    let mut out: Vec<(N, N)> = Vec::new();
    let mut i: usize = 0;
    while i < pairs.len()
        invariant
            i <= pairs@.len(),
            topics == pair_topics(pairs@),
            forall|k: int| 0 <= k < i ==> cache@.dom().contains(#[trigger] topics[k]),
            out@ == value_weights(cache@, pairs@).take(i as int),
        decreases pairs@.len() - i,
    {
        match cache.get::<N>(pairs[i].0.as_str()) {
            Some(v) => {
                out.push((v, pairs[i].1));
                assert(value_weights(cache@, pairs@).take(i + 1) =~= value_weights(
                    cache@,
                    pairs@,
                ).take(i as int).push(value_weights(cache@, pairs@)[i as int]));
            },
            None => {
                assert(!cache@.dom().contains(topics[i as int]));
                return None;
            },
        }
        i = i + 1;
    }
    assert(out@ =~= value_weights(cache@, pairs@));
    Some(out)
}

/// The tick period of a rate: at least one millisecond.
pub open spec fn period_ms<N: Scalar>(hz: N) -> u64 {
    N::int_spec(1000).over_spec(hz).larger_spec(N::int_spec(1)).truncate_spec()
}

/// The tick period of a rate, in milliseconds.
pub fn hz_to_period_ms<N: Scalar>(hz: N) -> (r: u64)
    ensures
        r == period_ms(hz),
{
    N::from_u64(1000).over(hz).larger(N::from_u64(1)).truncate()
}

/// The topics that a computation reads.
pub open spec fn topics_of<N>(c: Computation<N>) -> Seq<Seq<char>> {
    match c {
        Computation::Operation { operation, input_topics } => text::views(input_topics@),
        Computation::WeightedMean { pairs } => pair_topics(pairs@),
    }
}

/// Whether a computation has a value, once its inputs are there.
pub open spec fn computable<N: Scalar>(c: Computation<N>, cache: Map<Seq<char>, u64>) -> bool {
    match c {
        Computation::Operation { operation, input_topics } => operation::takes(
            operation,
            input_topics@.len(),
        ),
        Computation::WeightedMean { pairs } => operation::weighable(value_weights(cache, pairs@)),
    }
}

/// The value of a computation.
pub open spec fn computed<N: Scalar>(c: Computation<N>, cache: Map<Seq<char>, u64>) -> N {
    match c {
        Computation::Operation { operation, input_topics } => operation::value_of(
            operation,
            values::<N>(cache, text::views(input_topics@)),
        ),
        Computation::WeightedMean { pairs } => operation::mean_by_weight(
            value_weights(cache, pairs@),
        ),
    }
}

/// What is said of a computation without a value.
pub open spec fn compute_error<N: Scalar>(c: Computation<N>, cache: Map<Seq<char>, u64>) -> Seq<
    char,
> {
    match c {
        Computation::Operation { operation, input_topics } => operation::arity_error(
            operation,
            input_topics@.len(),
        ),
        Computation::WeightedMean { pairs } => operation::weight_error(
            value_weights(cache, pairs@),
        ),
    }
}

/// Evaluate a computation on cached inputs; nothing while an input has not
/// been heard.
pub fn evaluate<N: Scalar>(c: &Computation<N>, cache: &InputCache) -> (r: Result<
    Option<N>,
    GatewayError,
>)
    ensures
        match r {
            Ok(Some(v)) => all_cached(cache@, topics_of(*c)) && computable(*c, cache@) && v
                == computed(*c, cache@),
            Ok(None) => !all_cached(cache@, topics_of(*c)),
            Err(e) => all_cached(cache@, topics_of(*c)) && !computable(*c, cache@) && e.message@
                == compute_error(*c, cache@),
        },
{
    match c {
        Computation::Operation { operation, input_topics } => {
            match gather_inputs::<N>(input_topics.as_slice(), cache) {
                Some(v) => match operation.apply(v.as_slice()) {
                    Ok(x) => Ok(Some(x)),
                    Err(e) => Err(e),
                },
                None => Ok(None),
            }
        },
        Computation::WeightedMean { pairs } => {
            match gather_pairs(pairs.as_slice(), cache) {
                Some(v) => match weighted_mean(v.as_slice()) {
                    Ok(x) => Ok(Some(x)),
                    Err(e) => Err(e),
                },
                None => Ok(None),
            }
        },
    }
}

/// One tick of a synthetic channel: the sample to publish, stamped with
/// `now`, or nothing while an input has not been heard.
pub fn tick_once<N: Scalar>(cfg: &SyntheticTaskConfig<N>, cache: &InputCache, now: &str) -> (r:
    Result<Option<Publication>, GatewayError>)
    ensures
        match r {
            Ok(Some(p)) => {
                &&& all_cached(cache@, topics_of(cfg.computation))
                &&& computable(cfg.computation, cache@)
                &&& p.topic@ == cfg.output_topic@
                &&& p.payload@ == publisher::sample_text(now@, computed(cfg.computation, cache@))
                &&& p.qos == QOS_MEASUREMENT
                &&& !p.retained
            },
            Ok(None) => !all_cached(cache@, topics_of(cfg.computation)),
            Err(e) => all_cached(cache@, topics_of(cfg.computation)) && !computable(
                cfg.computation,
                cache@,
            ) && e.message@ == compute_error(cfg.computation, cache@),
        },
{
    match evaluate(&cfg.computation, cache) {
        Ok(Some(v)) => Ok(
            Some(
                Publication {
                    topic: cfg.output_topic.clone(),
                    payload: sample_payload(now, v),
                    qos: QOS_MEASUREMENT,
                    retained: false,
                },
            ),
        ),
        Ok(None) => Ok(None),
        Err(e) => Err(e),
    }
}

/// A channel that has once been heard on every input is never silent again:
/// hearing more topics, or hearing them anew, keeps every input.
pub proof fn lemma_heard_stays_heard(
    cache: Map<Seq<char>, u64>,
    topics: Seq<Seq<char>>,
    topic: Seq<char>,
    bits: u64,
)
    requires
        all_cached(cache, topics),
    ensures
        all_cached(cache.insert(topic, bits), topics),
{
}

/// The number that was last heard on a topic.
pub open spec fn heard<N: Scalar>(
    value: spec_fn(N) -> real,
    cache: Map<Seq<char>, u64>,
) -> spec_fn(Seq<char>) -> real {
    |topic: Seq<char>| value(N::bits_spec(cache[topic]))
}

/// The values that were last heard on some topics, one for each.
pub open spec fn last_heard<N: Scalar>(
    cache: Map<Seq<char>, u64>,
    topics: Seq<Seq<char>>,
) -> Seq<N> {
    Seq::new(topics.len(), |i: int| N::bits_spec(cache[topics[i]]))
}

pub(crate) proof fn lemma_heard_total<N: Scalar>(
    value: spec_fn(N) -> real,
    cache: Map<Seq<char>, u64>,
    topics: Seq<Seq<char>>,
)
    ensures
        arithmetic::total(value, last_heard::<N>(cache, topics)) == arithmetic::total(
            heard(value, cache),
            topics,
        ),
    decreases topics.len(),
{
    let all = last_heard::<N>(cache, topics);
    if topics.len() > 0 {
        assert(all.drop_last() =~= last_heard::<N>(cache, topics.drop_last()));
        lemma_heard_total(value, cache, topics.drop_last());
        assert(all.last() == N::bits_spec(cache[topics.last()]));
    }
}

/// What a channel computes of the numbers that it heard last, each on the topic
/// that stands for it: the first less the second, the sum of all, and what times
/// their number is their sum.
pub proof fn lemma_channel_in_numbers<N: Scalar>(
    value: spec_fn(N) -> real,
    counts: spec_fn(N) -> bool,
    input_topics: Vec<String>,
    cache: Map<Seq<char>, u64>,
)
    requires
        arithmetic::is_exact(value, counts),
        input_topics@.len() > 0,
        arithmetic::adds_up(counts, last_heard::<N>(cache, text::views(input_topics@))),
        counts(N::int_spec(input_topics@.len() as int)),
        arithmetic::is_even(
            value,
            scalar::sum_of(last_heard::<N>(cache, text::views(input_topics@))),
            N::int_spec(input_topics@.len() as int),
        ),
        input_topics@.len() == 2 ==> {
            let all = last_heard::<N>(cache, text::views(input_topics@));
            counts(all[0]) && counts(all[1]) && counts(all[0].minus_spec(all[1]))
        },
    ensures
        ({
            let topics = text::views(input_topics@);
            let number = |operation: Operation|
                value(computed::<N>(Computation::Operation { operation, input_topics }, cache));
            &&& topics.len() == 2 ==> number(Operation::Subtract) == heard(value, cache)(topics[0])
                - heard(value, cache)(topics[1])
            &&& number(Operation::Sum) == arithmetic::total(heard(value, cache), topics)
            &&& number(Operation::Mean) * (topics.len() as int as real) == arithmetic::total(
                heard(value, cache),
                topics,
            )
        }),
{
    let topics = text::views(input_topics@);
    let all = last_heard::<N>(cache, topics);
    assert(values::<N>(cache, topics) =~= all);
    lemma_heard_total(value, cache, topics);
    operation::lemma_sum_and_mean(value, counts, all);
}

/// The weighted mean of a channel, times the sum of its weights, is the sum of the
/// numbers that it heard last, each times the weight of its topic. There is one
/// where the weights sum to more than nothing.
pub proof fn lemma_weighted_channel_in_numbers<N: Scalar>(
    value: spec_fn(N) -> real,
    counts: spec_fn(N) -> bool,
    pairs: Vec<(String, N)>,
    cache: Map<Seq<char>, u64>,
)
    requires
        arithmetic::is_exact(value, counts),
        operation::mean_counts(counts, value_weights(cache, pairs@)),
        operation::mean_is_even(value, value_weights(cache, pairs@)),
    ensures
        ({
            let c = Computation::WeightedMean { pairs };
            let weight = arithmetic::total(|p: (String, N)| value(p.1), pairs@);
            &&& computable(c, cache) <==> pairs@.len() > 0 && 0real < weight
            &&& computable(c, cache) ==> value(computed(c, cache)) * weight == arithmetic::total(
                |p: (String, N)| value(N::bits_spec(cache[p.0@])) * value(p.1),
                pairs@,
            )
        }),
{
    let weighed = value_weights(cache, pairs@);
    operation::lemma_weighted_mean_is_the_quotient(value, counts, weighed);
    lemma_same_totals(
        |p: (String, N)| value(p.1),
        pairs@,
        |p: (N, N)| value(p.1),
        weighed,
    );
    lemma_same_totals(
        |p: (String, N)| value(N::bits_spec(cache[p.0@])) * value(p.1),
        pairs@,
        |p: (N, N)| value(p.0) * value(p.1),
        weighed,
    );
}

proof fn lemma_same_totals<A, B>(
    f: spec_fn(A) -> real,
    s: Seq<A>,
    g: spec_fn(B) -> real,
    t: Seq<B>,
)
    requires
        s.len() == t.len(),
        forall|i: int| 0 <= i < s.len() ==> f(#[trigger] s[i]) == g(t[i]),
    ensures
        arithmetic::total(f, s) == arithmetic::total(g, t),
    decreases s.len(),
{
    if s.len() > 0 {
        let n = s.len() - 1;
        assert forall|i: int| 0 <= i < n implies f(#[trigger] s.drop_last()[i]) == g(
            t.drop_last()[i],
        ) by {
            assert(s.drop_last()[i] == s[i]);
        }
        lemma_same_totals(f, s.drop_last(), g, t.drop_last());
        assert(f(s[n]) == g(t[n]));
    }
}

/// A channel is silent until it has heard every topic that it reads: those of its
/// inputs, or those of its weighted pairs.
pub proof fn lemma_silent_until_all_heard<N>(c: Computation<N>, cache: Map<Seq<char>, u64>)
    ensures
        all_cached(cache, topics_of(c)) <==> topics_of(c).to_set().subset_of(cache.dom()),
        c matches Computation::Operation { operation, input_topics } ==> {
            &&& topics_of(c).len() == input_topics@.len()
            &&& forall|i: int|
                0 <= i < input_topics@.len() ==> (#[trigger] input_topics@[i])@ == topics_of(c)[i]
        },
        c matches Computation::WeightedMean { pairs } ==> {
            &&& topics_of(c).len() == pairs@.len()
            &&& forall|i: int|
                0 <= i < pairs@.len() ==> (#[trigger] pairs@[i]).0@ == topics_of(c)[i]
        },
{
    let topics = topics_of(c);
    if all_cached(cache, topics) {
        assert forall|t: Seq<char>| topics.to_set().contains(t) implies cache.dom().contains(t) by {
            let i = choose|i: int| 0 <= i < topics.len() && topics[i] == t;
            assert(cache.dom().contains(topics[i]));
        }
    }
    if topics.to_set().subset_of(cache.dom()) {
        assert forall|i: int| 0 <= i < topics.len() implies cache.dom().contains(
            #[trigger] topics[i],
        ) by {
            assert(topics.to_set().contains(topics[i]));
        }
    }
}

/// A channel ticks as often as its rate says: its period is the largest whole
/// number of milliseconds that is no longer than the rate's, and at least one.
pub proof fn lemma_period_in_numbers<N: Scalar>(
    value: spec_fn(N) -> real,
    counts: spec_fn(N) -> bool,
    hz: N,
)
    requires
        arithmetic::is_exact(value, counts),
        counts(N::int_spec(1)) && counts(N::int_spec(1000)) && counts(hz),
        counts(N::int_spec(1000).over_spec(hz)),
        arithmetic::is_even(value, N::int_spec(1000), hz),
        0real < value(hz),
        arithmetic::truncates(value, counts),
    ensures
        1 <= period_ms(hz),
        value(hz) <= 1000real ==> (period_ms(hz) as int as real) * value(hz) <= 1000real,
        1000real < (period_ms(hz) as int as real + 1real) * value(hz),
{
    let one = N::int_spec(1);
    let rated = N::int_spec(1000).over_spec(hz);
    let exact = rated.larger_spec(one);
    let p = period_ms(hz) as int as real;
    let h = value(hz);
    assert(value(one) == 1real && value(N::int_spec(1000)) == 1000real);
    assert(value(rated) * h == 1000real);
    assert(counts(exact));
    assert(p <= value(exact) < p + 1real);
    arithmetic::lemma_times_one(h);
    if value(hz) <= 1000real {
        if value(rated) < 1real {
            arithmetic::lemma_times_below(value(rated), 1real, h);
        }
        assert(value(exact) == value(rated));
        arithmetic::lemma_times_order(p, value(rated), h);
    }
    arithmetic::lemma_times_below(value(exact), p + 1real, h);
    arithmetic::lemma_times_order(value(rated), value(exact), h);
}

} // verus!
