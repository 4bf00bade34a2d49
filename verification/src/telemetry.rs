//! Per-protocol request counters: how many requests, how many failed, and how
//! much time and how many bytes they took.

use vstd::prelude::*;
use crate::names::{
    compare_names, lemma_name_less_irreflexive, lemma_name_less_total, lemma_name_less_transitive,
    name_less, NameOrder,
};

verus! {

/// Counters of one protocol.
#[derive(Clone, Copy, Debug)]
pub struct ProtocolTelemetry {
    pub requests: u64,
    pub failures: u64,
    pub total_duration_ns: u64,
    pub request_bytes: u64,
    pub response_bytes: u64,
}

impl ProtocolTelemetry {
    /// Counters of a protocol that has seen no request.
    pub open spec fn spec_zero() -> ProtocolTelemetry {
        ProtocolTelemetry {
            requests: 0,
            failures: 0,
            total_duration_ns: 0,
            request_bytes: 0,
            response_bytes: 0,
        }
    }

    /// Counters of a protocol that has seen no request.
    pub fn zero() -> (counters: ProtocolTelemetry)
        ensures
            counters == ProtocolTelemetry::spec_zero(),
    {
        ProtocolTelemetry {
            requests: 0,
            failures: 0,
            total_duration_ns: 0,
            request_bytes: 0,
            response_bytes: 0,
        }
    }
}

/// The counters of `protocol`, zero when it has no entry yet.
pub open spec fn counters_of(
    totals: Map<Seq<char>, ProtocolTelemetry>,
    protocol: Seq<char>,
) -> ProtocolTelemetry {
    if totals.contains_key(protocol) {
        totals[protocol]
    } else {
        ProtocolTelemetry::spec_zero()
    }
}

/// The duration as the counters hold it: nanoseconds cut to 64 bits.
pub open spec fn duration_counted(duration_ns: u128) -> u64 {
    (duration_ns % 0x1_0000_0000_0000_0000) as u64
}

/// Recording one request adds no counter past `u64::MAX`.
pub open spec fn record_fits(
    totals: Map<Seq<char>, ProtocolTelemetry>,
    protocol: Seq<char>,
    duration_ns: u128,
    request_bytes: u64,
    response_bytes: u64,
) -> bool {
    let c = counters_of(totals, protocol);
    &&& c.requests + 1 <= u64::MAX
    &&& c.total_duration_ns + duration_counted(duration_ns) <= u64::MAX
    &&& c.request_bytes + request_bytes <= u64::MAX
    &&& c.response_bytes + response_bytes <= u64::MAX
}

/// The counters after one more request: one more request, one more failure when
/// it failed, and its duration and byte counts added.
pub open spec fn counted(
    c: ProtocolTelemetry,
    success: bool,
    duration_ns: u128,
    request_bytes: u64,
    response_bytes: u64,
) -> ProtocolTelemetry {
    ProtocolTelemetry {
        requests: (c.requests + 1) as u64,
        failures: if success {
            c.failures
        } else {
            (c.failures + 1) as u64
        },
        total_duration_ns: (c.total_duration_ns + duration_counted(duration_ns)) as u64,
        request_bytes: (c.request_bytes + request_bytes) as u64,
        response_bytes: (c.response_bytes + response_bytes) as u64,
    }
}

/// The totals after recording one request of `protocol`.
pub open spec fn recorded(
    totals: Map<Seq<char>, ProtocolTelemetry>,
    protocol: Seq<char>,
    success: bool,
    duration_ns: u128,
    request_bytes: u64,
    response_bytes: u64,
) -> Map<Seq<char>, ProtocolTelemetry> {
    totals.insert(
        protocol,
        counted(counters_of(totals, protocol), success, duration_ns, request_bytes, response_bytes),
    )
}

/// Counters of every protocol that has seen a request, kept in ascending order of
/// protocol name.
pub struct Telemetry {
    names: Vec<String>,
    counters: Vec<ProtocolTelemetry>,
}

/// The names are strictly ascending, so each occurs once.
pub open spec fn strictly_ascending(names: Seq<Seq<char>>) -> bool {
    forall|i: int, j: int| 0 <= i < j < names.len() ==> name_less(names[i], names[j])
}

/// No protocol shows more failures than requests.
pub open spec fn failures_bounded(totals: Map<Seq<char>, ProtocolTelemetry>) -> bool {
    forall|p: Seq<char>| #[trigger]
        totals.contains_key(p) ==> totals[p].failures <= totals[p].requests
}

spec fn keys_of(names: Seq<String>) -> Seq<Seq<char>> {
    names.map_values(|n: String| n@)
}

/// Names and counters line up, names ascend strictly, and no entry has more
/// failures than requests.
spec fn entries_valid(keys: Seq<Seq<char>>, counters: Seq<ProtocolTelemetry>) -> bool {
    &&& keys.len() == counters.len()
    &&& strictly_ascending(keys)
    &&& forall|i: int|
        0 <= i < counters.len() ==> #[trigger] counters[i].failures <= counters[i].requests
}

spec fn totals_from(keys: Seq<Seq<char>>, counters: Seq<ProtocolTelemetry>) -> Map<
    Seq<char>,
    ProtocolTelemetry,
> {
    Map::new(|p: Seq<char>| keys.contains(p), |p: Seq<char>| counters[keys.index_of(p)])
}

impl Telemetry {
    #[verifier::type_invariant]
    spec fn wf(self) -> bool {
        entries_valid(keys_of(self.names@), self.counters@)
    }

    /// The counters of each protocol that has seen a request.
    pub closed spec fn totals(&self) -> Map<Seq<char>, ProtocolTelemetry> {
        totals_from(keys_of(self.names@), self.counters@)
    }
}

impl View for Telemetry {
    type V = Map<Seq<char>, ProtocolTelemetry>;

    open spec fn view(&self) -> Map<Seq<char>, ProtocolTelemetry> {
        self.totals()
    }
}

/// `entries` lists `totals`: each protocol once, in ascending order of name, with its counters.
pub open spec fn lists_totals(
    entries: Seq<(String, ProtocolTelemetry)>,
    totals: Map<Seq<char>, ProtocolTelemetry>,
) -> bool {
    &&& strictly_ascending(entries.map_values(|e: (String, ProtocolTelemetry)| e.0@))
    &&& forall|i: int|
        0 <= i < entries.len() ==> totals.contains_key(#[trigger] entries[i].0@) && totals[entries[i].0@]
            == entries[i].1
    &&& forall|p: Seq<char>|
        totals.contains_key(p) ==> exists|i: int| 0 <= i < entries.len() && #[trigger] entries[i].0@ == p
}

proof fn lemma_unique_index(names: Seq<Seq<char>>, i: int)
    requires
        strictly_ascending(names),
        0 <= i < names.len(),
    ensures
        names.contains(names[i]),
        names.index_of(names[i]) == i,
{
    assert(names[i] == names[i]);
    let j = names.index_of(names[i]);
    if j != i {
        lemma_name_less_irreflexive(names[i]);
    }
}

proof fn lemma_valid_entries_bounded(keys: Seq<Seq<char>>, counters: Seq<ProtocolTelemetry>)
    requires
        entries_valid(keys, counters),
    ensures
        failures_bounded(totals_from(keys, counters)),
{
    assert forall|p: Seq<char>| #[trigger] totals_from(keys, counters).contains_key(p) implies totals_from(
        keys,
        counters,
    )[p].failures <= totals_from(keys, counters)[p].requests by {
        let j = keys.index_of(p);
        assert(counters[j].failures <= counters[j].requests);
    }
}

/// Where `protocol` is or would go among the strictly ascending `names`: every
/// name before `index` is smaller; when `found`, the name at `index` is
/// `protocol`, else the name there, if any, is greater.
fn locate(names: &Vec<String>, protocol: &str) -> (result: (usize, bool))
    requires
        strictly_ascending(keys_of(names@)),
    ensures
        result.0 <= keys_of(names@).len(),
        forall|j: int| 0 <= j < result.0 ==> name_less(keys_of(names@)[j], protocol@),
        result.1 ==> result.0 < keys_of(names@).len() && keys_of(names@)[result.0 as int]
            == protocol@,
        !result.1 ==> (result.0 < keys_of(names@).len() ==> name_less(
            protocol@,
            keys_of(names@)[result.0 as int],
        )),
{
    let n = names.len();
    let mut idx: usize = 0;
    while idx < n
        invariant
            n == keys_of(names@).len(),
            idx <= n,
            forall|j: int| 0 <= j < idx ==> name_less(keys_of(names@)[j], protocol@),
        decreases n - idx,
    {
        match compare_names(names[idx].as_str(), protocol) {
            NameOrder::Less => {
                idx = idx + 1;
            },
            NameOrder::Equal => {
                return (idx, true);
            },
            NameOrder::Greater => {
                return (idx, false);
            },
        }
    }
    (idx, false)
}

fn counted_exec(
    c: ProtocolTelemetry,
    success: bool,
    duration_ns: u128,
    request_bytes: u64,
    response_bytes: u64,
) -> (next: ProtocolTelemetry)
    requires
        c.failures <= c.requests,
        c.requests + 1 <= u64::MAX,
        c.total_duration_ns + duration_counted(duration_ns) <= u64::MAX,
        c.request_bytes + request_bytes <= u64::MAX,
        c.response_bytes + response_bytes <= u64::MAX,
    ensures
        next == counted(c, success, duration_ns, request_bytes, response_bytes),
        next.failures <= next.requests,
{
    let duration: u64 = #[verifier::truncate] (duration_ns as u64);
    assert(#[verifier::truncate] (duration_ns as u64) == (duration_ns % 0x1_0000_0000_0000_0000) as u64) by (bit_vector);
    ProtocolTelemetry {
        requests: c.requests + 1,
        failures: if success {
            c.failures
        } else {
            c.failures + 1
        },
        total_duration_ns: c.total_duration_ns + duration,
        request_bytes: c.request_bytes + request_bytes,
        response_bytes: c.response_bytes + response_bytes,
    }
}

impl Telemetry {
    /// Telemetry that has recorded nothing.
    pub fn new() -> (telemetry: Telemetry)
        ensures
            telemetry@ == Map::<Seq<char>, ProtocolTelemetry>::empty(),
    {
        let names: Vec<String> = Vec::new();
        let counters: Vec<ProtocolTelemetry> = Vec::new();
        assert(keys_of(names@) =~= Seq::<Seq<char>>::empty());
        let telemetry = Telemetry { names, counters };
        assert(telemetry@ =~= Map::<Seq<char>, ProtocolTelemetry>::empty());
        telemetry
    }

    /// The counters of `protocol`, if it has seen a request.
    pub fn get(&self, protocol: &str) -> (counters: Option<ProtocolTelemetry>)
        ensures
            counters == if self@.contains_key(protocol@) {
                Some(self@[protocol@])
            } else {
                None::<ProtocolTelemetry>
            },
    {
        proof {
            use_type_invariant(self);
        }
        let ghost keys = keys_of(self.names@);
        let (idx, found) = locate(&self.names, protocol);
        if found {
            proof {
                lemma_unique_index(keys, idx as int);
            }
            Some(self.counters[idx])
        } else {
            proof {
                if keys.contains(protocol@) {
                    let k = keys.index_of(protocol@);
                    lemma_name_less_irreflexive(protocol@);
                    if k > idx {
                        lemma_name_less_transitive(protocol@, keys[idx as int], protocol@);
                    }
                }
            }
            None
        }
    }
}


impl Telemetry {
    /// Whether recording one request of `protocol` keeps every counter within `u64`.
    pub fn can_record(
        &self,
        protocol: &str,
        duration_ns: u128,
        request_bytes: u64,
        response_bytes: u64,
    ) -> (fits: bool)
        ensures
            fits == record_fits(self@, protocol@, duration_ns, request_bytes, response_bytes),
    {
        let c = match self.get(protocol) {
            Some(c) => c,
            None => ProtocolTelemetry::zero(),
        };
        let duration: u64 = #[verifier::truncate] (duration_ns as u64);
        assert(#[verifier::truncate] (duration_ns as u64) == (duration_ns % 0x1_0000_0000_0000_0000) as u64) by (bit_vector);
        c.requests < u64::MAX && c.total_duration_ns <= u64::MAX - duration && c.request_bytes
            <= u64::MAX - request_bytes && c.response_bytes <= u64::MAX - response_bytes
    }

    /// Counts one request of `protocol`: one more request, one more failure unless
    /// it succeeded, and its duration (nanoseconds, cut to 64 bits) and byte counts
    /// added. A protocol seen for the first time starts from zero.
    pub fn record(
        &mut self,
        protocol: &str,
        success: bool,
        duration_ns: u128,
        request_bytes: u64,
        response_bytes: u64,
    )
        requires
            record_fits(old(self)@, protocol@, duration_ns, request_bytes, response_bytes),
        ensures
            final(self)@ == recorded(
                old(self)@,
                protocol@,
                success,
                duration_ns,
                request_bytes,
                response_bytes,
            ),
            failures_bounded(final(self)@),
    {
        proof {
            use_type_invariant(&*self);
        }
        let ghost old_totals = self@;
        let ghost p = protocol@;
        let mut current = Telemetry::new();
        std::mem::swap(self, &mut current);
        proof {
            use_type_invariant(&current);
        }
        let Telemetry { mut names, mut counters } = current;
        let ghost old_names = keys_of(names@);
        let ghost old_counters = counters@;
        assert(old_totals == totals_from(old_names, old_counters));
        let (idx, found) = locate(&names, protocol);
        if found {
            proof {
                lemma_unique_index(old_names, idx as int);
            }
            let c = counters[idx];
            let next = counted_exec(c, success, duration_ns, request_bytes, response_bytes);
            counters.set(idx, next);
            proof {
                let after = totals_from(old_names, counters@);
                assert forall|k: Seq<char>| #[trigger] after.contains_key(k) == old_totals.insert(
                    p,
                    next,
                ).contains_key(k) && (after.contains_key(k) ==> after[k] == old_totals.insert(
                    p,
                    next,
                )[k]) by {
                    if after.contains_key(k) && k != p {
                        let j = old_names.index_of(k);
                        lemma_unique_index(old_names, j);
                    }
                }
                assert(after =~= old_totals.insert(p, next));
                assert forall|i: int|
                    0 <= i < counters@.len() implies #[trigger] counters@[i].failures
                    <= counters@[i].requests by {
                    if i != idx {
                        assert(counters@[i] == old_counters[i]);
                    }
                }
                assert(entries_valid(keys_of(names@), counters@));
                lemma_valid_entries_bounded(keys_of(names@), counters@);
            }
        } else {
            let zero = ProtocolTelemetry::zero();
            proof {
                if old_names.contains(p) {
                    let k = old_names.index_of(p);
                    lemma_name_less_irreflexive(p);
                    if k > idx {
                        lemma_name_less_transitive(p, old_names[idx as int], p);
                    }
                }
                assert(!old_totals.contains_key(p));
            }
            let next = counted_exec(zero, success, duration_ns, request_bytes, response_bytes);
            names.insert(idx, protocol.to_owned());
            counters.insert(idx, next);
            let ghost keys = keys_of(names@);
            assert(keys =~= old_names.insert(idx as int, p));
            proof {
                assert forall|i: int, j: int| 0 <= i < j < keys.len() implies name_less(
                    keys[i],
                    keys[j],
                ) by {
                    if i == idx && j - 1 > idx {
                        lemma_name_less_transitive(p, old_names[idx as int], old_names[j - 1]);
                    }
                }
                assert forall|i: int|
                    0 <= i < counters@.len() implies #[trigger] counters@[i].failures
                    <= counters@[i].requests by {
                    if i < idx {
                        assert(counters@[i] == old_counters[i]);
                    } else if i > idx {
                        assert(counters@[i] == old_counters[i - 1]);
                    }
                }
                assert(entries_valid(keys, counters@));
                lemma_valid_entries_bounded(keys, counters@);
                lemma_unique_index(keys, idx as int);
                let after = totals_from(keys, counters@);
                assert forall|k: Seq<char>| #[trigger] after.contains_key(k) == old_totals.insert(
                    p,
                    next,
                ).contains_key(k) && (after.contains_key(k) ==> after[k] == old_totals.insert(
                    p,
                    next,
                )[k]) by {
                    if k != p {
                        if old_names.contains(k) {
                            let j = old_names.index_of(k);
                            lemma_unique_index(old_names, j);
                            let nj = if j < idx { j } else { j + 1 };
                            assert(keys[nj] == k);
                            lemma_unique_index(keys, nj);
                        }
                        if keys.contains(k) {
                            let nj = keys.index_of(k);
                            assert(nj != idx);
                            let j = if nj < idx { nj } else { nj - 1 };
                            assert(old_names[j] == k);
                        }
                    }
                }
                assert(after =~= old_totals.insert(p, next));
            }
        }
        *self = Telemetry { names, counters };
    }

    /// Every protocol that has seen a request, once each, in ascending order of
    /// name, with its counters.
    pub fn snapshot(&self) -> (entries: Vec<(String, ProtocolTelemetry)>)
        ensures
            lists_totals(entries@, self@),
            failures_bounded(self@),
    {
        proof {
            use_type_invariant(self);
            lemma_valid_entries_bounded(keys_of(self.names@), self.counters@);
        }
        let ghost names = keys_of(self.names@);
        let n = self.names.len();
        let mut entries: Vec<(String, ProtocolTelemetry)> = Vec::new();
        let mut i: usize = 0;
        while i < n
            invariant
                n == names.len(),
                names == keys_of(self.names@),
                names.len() == self.counters@.len(),
                i <= n,
                entries@.len() == i,
                forall|j: int|
                    0 <= j < i ==> #[trigger] entries@[j].0@ == names[j] && entries@[j].1
                        == self.counters@[j],
            decreases n - i,
        {
            let name = self.names[i].clone();
            entries.push((name, self.counters[i]));
            i = i + 1;
        }
        proof {
            let keys = entries@.map_values(|e: (String, ProtocolTelemetry)| e.0@);
            assert(keys =~= names);
            assert forall|j: int| 0 <= j < entries@.len() implies self@.contains_key(
                #[trigger] entries@[j].0@,
            ) && self@[entries@[j].0@] == entries@[j].1 by {
                lemma_unique_index(names, j);
            }
            assert forall|p: Seq<char>| self@.contains_key(p) implies exists|j: int|
                0 <= j < entries@.len() && #[trigger] entries@[j].0@ == p by {
                let j = names.index_of(p);
                assert(entries@[j].0@ == p);
            }
        }
        entries
    }
}

impl Default for Telemetry {
    fn default() -> (telemetry: Telemetry)
        ensures
            telemetry@ == Map::<Seq<char>, ProtocolTelemetry>::empty(),
    {
        Telemetry::new()
    }
}

/// Recording a request of one protocol leaves the counters of every other protocol
/// as they were, and adds no other protocol.
pub proof fn lemma_record_touches_only_its_protocol(
    totals: Map<Seq<char>, ProtocolTelemetry>,
    protocol: Seq<char>,
    other: Seq<char>,
    success: bool,
    duration_ns: u128,
    request_bytes: u64,
    response_bytes: u64,
)
    requires
        other != protocol,
    ensures
        ({
            let after = recorded(totals, protocol, success, duration_ns, request_bytes, response_bytes);
            &&& after.contains_key(protocol)
            &&& after.contains_key(other) == totals.contains_key(other)
            &&& counters_of(after, other) == counters_of(totals, other)
        }),
{
}

/// One recorded request: protocol, success, duration in nanoseconds, request and response bytes.
pub type Sample = (Seq<char>, bool, u128, u64, u64);

/// The totals after recording `samples` in order, starting from `totals`.
pub open spec fn replay(totals: Map<Seq<char>, ProtocolTelemetry>, samples: Seq<Sample>) -> Map<
    Seq<char>,
    ProtocolTelemetry,
>
    decreases samples.len(),
{
    if samples.len() == 0 {
        totals
    } else {
        let s = samples.last();
        recorded(replay(totals, samples.drop_last()), s.0, s.1, s.2, s.3, s.4)
    }
}

/// How many of `samples` are requests of `protocol`.
pub open spec fn count_requests(samples: Seq<Sample>, protocol: Seq<char>) -> nat
    decreases samples.len(),
{
    if samples.len() == 0 {
        0
    } else {
        count_requests(samples.drop_last(), protocol) + if samples.last().0 == protocol {
            1nat
        } else {
            0nat
        }
    }
}

/// How many of `samples` are failed requests of `protocol`.
pub open spec fn count_failures(samples: Seq<Sample>, protocol: Seq<char>) -> nat
    decreases samples.len(),
{
    if samples.len() == 0 {
        0
    } else {
        count_failures(samples.drop_last(), protocol) + if samples.last().0 == protocol
            && !samples.last().1 {
            1nat
        } else {
            0nat
        }
    }
}

/// Sum of the counted durations of the requests of `protocol` among `samples`.
pub open spec fn sum_durations(samples: Seq<Sample>, protocol: Seq<char>) -> nat
    decreases samples.len(),
{
    if samples.len() == 0 {
        0
    } else {
        sum_durations(samples.drop_last(), protocol) + if samples.last().0 == protocol {
            duration_counted(samples.last().2) as nat
        } else {
            0nat
        }
    }
}

/// Sum of the request bytes of the requests of `protocol` among `samples`.
pub open spec fn sum_request_bytes(samples: Seq<Sample>, protocol: Seq<char>) -> nat
    decreases samples.len(),
{
    if samples.len() == 0 {
        0
    } else {
        sum_request_bytes(samples.drop_last(), protocol) + if samples.last().0 == protocol {
            samples.last().3 as nat
        } else {
            0nat
        }
    }
}

/// Sum of the response bytes of the requests of `protocol` among `samples`.
pub open spec fn sum_response_bytes(samples: Seq<Sample>, protocol: Seq<char>) -> nat
    decreases samples.len(),
{
    if samples.len() == 0 {
        0
    } else {
        sum_response_bytes(samples.drop_last(), protocol) + if samples.last().0 == protocol {
            samples.last().4 as nat
        } else {
            0nat
        }
    }
}

/// Starting from nothing, exactly the protocols named by some recorded request
/// have counters.
pub proof fn lemma_replay_protocols(samples: Seq<Sample>, protocol: Seq<char>)
    ensures
        replay(Map::empty(), samples).contains_key(protocol) <==> exists|i: int|
            0 <= i < samples.len() && #[trigger] samples[i].0 == protocol,
    decreases samples.len(),
{
    if samples.len() > 0 {
        let rest = samples.drop_last();
        lemma_replay_protocols(rest, protocol);
        if exists|i: int| 0 <= i < rest.len() && #[trigger] rest[i].0 == protocol {
            let i = choose|i: int| 0 <= i < rest.len() && #[trigger] rest[i].0 == protocol;
            assert(samples[i].0 == protocol);
        }
        if exists|i: int| 0 <= i < samples.len() && #[trigger] samples[i].0 == protocol {
            let i = choose|i: int| 0 <= i < samples.len() && #[trigger] samples[i].0 == protocol;
            if i < samples.len() - 1 {
                assert(rest[i].0 == protocol);
            }
        }
    }
}

/// Starting from nothing, when no total of `protocol` passes `u64::MAX`, its
/// counters hold exactly the number of its recorded requests, the number of
/// those that failed, and the sums of their durations, request bytes and
/// response bytes.
pub proof fn lemma_replay_totals(samples: Seq<Sample>, protocol: Seq<char>)
    requires
        samples.len() <= u64::MAX,
        sum_durations(samples, protocol) <= u64::MAX,
        sum_request_bytes(samples, protocol) <= u64::MAX,
        sum_response_bytes(samples, protocol) <= u64::MAX,
    ensures
        counters_of(replay(Map::empty(), samples), protocol) == (ProtocolTelemetry {
            requests: count_requests(samples, protocol) as u64,
            failures: count_failures(samples, protocol) as u64,
            total_duration_ns: sum_durations(samples, protocol) as u64,
            request_bytes: sum_request_bytes(samples, protocol) as u64,
            response_bytes: sum_response_bytes(samples, protocol) as u64,
        }),
        count_failures(samples, protocol) <= count_requests(samples, protocol) <= samples.len(),
    decreases samples.len(),
{
    if samples.len() > 0 {
        lemma_replay_totals(samples.drop_last(), protocol);
    }
}

/// Every counter of `after` is at least the same counter of `before`, and no
/// protocol of `before` is missing from `after`.
pub open spec fn counters_grow(
    before: Map<Seq<char>, ProtocolTelemetry>,
    after: Map<Seq<char>, ProtocolTelemetry>,
) -> bool {
    forall|p: Seq<char>| #[trigger]
        before.contains_key(p) ==> {
            &&& after.contains_key(p)
            &&& before[p].requests <= after[p].requests
            &&& before[p].failures <= after[p].failures
            &&& before[p].total_duration_ns <= after[p].total_duration_ns
            &&& before[p].request_bytes <= after[p].request_bytes
            &&& before[p].response_bytes <= after[p].response_bytes
        }
}

/// Each record of `samples`, in turn, keeps every counter within `u64`.
pub open spec fn replay_fits(totals: Map<Seq<char>, ProtocolTelemetry>, samples: Seq<Sample>) -> bool
    decreases samples.len(),
{
    if samples.len() == 0 {
        true
    } else {
        let s = samples.last();
        &&& replay_fits(totals, samples.drop_last())
        &&& record_fits(replay(totals, samples.drop_last()), s.0, s.2, s.3, s.4)
    }
}

/// One record that fits keeps failures within requests and lets no counter shrink.
pub proof fn lemma_record_counters_grow(
    totals: Map<Seq<char>, ProtocolTelemetry>,
    protocol: Seq<char>,
    success: bool,
    duration_ns: u128,
    request_bytes: u64,
    response_bytes: u64,
)
    requires
        failures_bounded(totals),
        record_fits(totals, protocol, duration_ns, request_bytes, response_bytes),
    ensures
        failures_bounded(
            recorded(totals, protocol, success, duration_ns, request_bytes, response_bytes),
        ),
        counters_grow(
            totals,
            recorded(totals, protocol, success, duration_ns, request_bytes, response_bytes),
        ),
{
    let after = recorded(totals, protocol, success, duration_ns, request_bytes, response_bytes);
    assert(counters_of(totals, protocol).failures <= counters_of(totals, protocol).requests);
    assert forall|p: Seq<char>| #[trigger] after.contains_key(p) implies after[p].failures
        <= after[p].requests by {
        if p != protocol {
            assert(totals.contains_key(p));
        }
    }
}

/// Counters never shrink: after any sequence of records, each of which fits, every
/// protocol that had counters still has them, each at least as large as before.
pub proof fn lemma_replay_counters_grow(
    totals: Map<Seq<char>, ProtocolTelemetry>,
    samples: Seq<Sample>,
)
    requires
        failures_bounded(totals),
        replay_fits(totals, samples),
    ensures
        failures_bounded(replay(totals, samples)),
        counters_grow(totals, replay(totals, samples)),
    decreases samples.len(),
{
    if samples.len() > 0 {
        let rest = samples.drop_last();
        let s = samples.last();
        lemma_replay_counters_grow(totals, rest);
        let mid = replay(totals, rest);
        lemma_record_counters_grow(mid, s.0, s.1, s.2, s.3, s.4);
        let after = replay(totals, samples);
        assert forall|p: Seq<char>| #[trigger] totals.contains_key(p) implies after.contains_key(p)
            && totals[p].requests <= after[p].requests && totals[p].failures <= after[p].failures
            && totals[p].total_duration_ns <= after[p].total_duration_ns && totals[p].request_bytes
            <= after[p].request_bytes && totals[p].response_bytes <= after[p].response_bytes by {
            assert(mid.contains_key(p));
        }
    }
}


/// Recording a request adds exactly one request, one failure when it failed, its
/// duration (all of it when it is below 2^64 nanoseconds, otherwise the rest of it
/// modulo 2^64) and its byte counts to the counters of its protocol.
pub proof fn lemma_record_adds_sample(
    totals: Map<Seq<char>, ProtocolTelemetry>,
    protocol: Seq<char>,
    success: bool,
    duration_ns: u128,
    request_bytes: u64,
    response_bytes: u64,
)
    requires
        failures_bounded(totals),
        record_fits(totals, protocol, duration_ns, request_bytes, response_bytes),
    ensures
        ({
            let before = counters_of(totals, protocol);
            let after = recorded(totals, protocol, success, duration_ns, request_bytes, response_bytes);
            &&& after.contains_key(protocol)
            &&& after[protocol].requests == before.requests + 1
            &&& after[protocol].failures == before.failures + if success {
                0int
            } else {
                1int
            }
            &&& after[protocol].total_duration_ns == before.total_duration_ns + duration_ns
                % 0x1_0000_0000_0000_0000
            &&& duration_ns < 0x1_0000_0000_0000_0000 ==> after[protocol].total_duration_ns
                == before.total_duration_ns + duration_ns
            &&& after[protocol].request_bytes == before.request_bytes + request_bytes
            &&& after[protocol].response_bytes == before.response_bytes + response_bytes
        }),
{
    assert(counters_of(totals, protocol).failures <= counters_of(totals, protocol).requests);
}

/// A request can be recorded exactly when none of the counters of its protocol,
/// with the request added, would pass `u64::MAX`; no other request is refused.
pub proof fn lemma_record_fits_exactly_without_overflow(
    totals: Map<Seq<char>, ProtocolTelemetry>,
    protocol: Seq<char>,
    duration_ns: u128,
    request_bytes: u64,
    response_bytes: u64,
)
    ensures
        record_fits(totals, protocol, duration_ns, request_bytes, response_bytes) <==> ({
            let c = counters_of(totals, protocol);
            &&& c.requests + 1 <= u64::MAX
            &&& c.total_duration_ns + duration_ns % 0x1_0000_0000_0000_0000 <= u64::MAX
            &&& c.request_bytes + request_bytes <= u64::MAX
            &&& c.response_bytes + response_bytes <= u64::MAX
        }),
{
}


/// There is only one listing of given totals: any two sequences that each list
/// the same totals (each protocol once, ascending, with its counters) agree entry
/// by entry. So `snapshot` has one possible answer.
pub proof fn lemma_listing_is_unique(
    first: Seq<(String, ProtocolTelemetry)>,
    second: Seq<(String, ProtocolTelemetry)>,
    totals: Map<Seq<char>, ProtocolTelemetry>,
)
    requires
        lists_totals(first, totals),
        lists_totals(second, totals),
    ensures
        first.len() == second.len(),
        forall|i: int|
            0 <= i < first.len() ==> #[trigger] first[i].0@ == second[i].0@ && first[i].1
                == second[i].1,
    decreases first.len() + second.len(),
{
    let k1 = first.map_values(|e: (String, ProtocolTelemetry)| e.0@);
    let k2 = second.map_values(|e: (String, ProtocolTelemetry)| e.0@);
    if first.len() == 0 || second.len() == 0 {
        if second.len() > 0 {
            assert(totals.contains_key(second[0].0@));
        }
        if first.len() > 0 {
            assert(totals.contains_key(first[0].0@));
        }
    } else {
        let a = first[0].0@;
        let b = second[0].0@;
        assert(totals.contains_key(a));
        assert(totals.contains_key(b));
        let j = choose|j: int| 0 <= j < second.len() && #[trigger] second[j].0@ == a;
        let i = choose|i: int| 0 <= i < first.len() && #[trigger] first[i].0@ == b;
        if a != b {
            assert(j > 0 && i > 0);
            assert(k2[0] == b && k2[j] == a);
            assert(k1[0] == a && k1[i] == b);
            lemma_name_less_total(a, b);
            assert(false);
        }
        let rest_totals = totals.remove(a);
        let f = first.drop_first();
        let g = second.drop_first();
        let fk = f.map_values(|e: (String, ProtocolTelemetry)| e.0@);
        let gk = g.map_values(|e: (String, ProtocolTelemetry)| e.0@);
        assert forall|x: int, y: int| 0 <= x < y < fk.len() implies name_less(fk[x], fk[y]) by {
            assert(fk[x] == k1[x + 1] && fk[y] == k1[y + 1]);
        }
        assert forall|x: int, y: int| 0 <= x < y < gk.len() implies name_less(gk[x], gk[y]) by {
            assert(gk[x] == k2[x + 1] && gk[y] == k2[y + 1]);
        }
        assert forall|x: int| 0 <= x < f.len() implies rest_totals.contains_key(#[trigger] f[x].0@)
            && rest_totals[f[x].0@] == f[x].1 by {
            assert(f[x] == first[x + 1]);
            assert(k1[0] == a && k1[x + 1] == f[x].0@);
            lemma_name_less_irreflexive(a);
        }
        assert forall|x: int| 0 <= x < g.len() implies rest_totals.contains_key(#[trigger] g[x].0@)
            && rest_totals[g[x].0@] == g[x].1 by {
            assert(g[x] == second[x + 1]);
            assert(k2[0] == a && k2[x + 1] == g[x].0@);
            lemma_name_less_irreflexive(a);
        }
        assert forall|p: Seq<char>| rest_totals.contains_key(p) implies exists|x: int|
            0 <= x < f.len() && #[trigger] f[x].0@ == p by {
            let x = choose|x: int| 0 <= x < first.len() && #[trigger] first[x].0@ == p;
            assert(x > 0);
            assert(f[x - 1].0@ == p);
        }
        assert forall|p: Seq<char>| rest_totals.contains_key(p) implies exists|x: int|
            0 <= x < g.len() && #[trigger] g[x].0@ == p by {
            let x = choose|x: int| 0 <= x < second.len() && #[trigger] second[x].0@ == p;
            assert(x > 0);
            assert(g[x - 1].0@ == p);
        }
        lemma_listing_is_unique(f, g, rest_totals);
        assert forall|x: int| 0 <= x < first.len() implies #[trigger] first[x].0@ == second[x].0@
            && first[x].1 == second[x].1 by {
            if x > 0 {
                assert(f[x - 1] == first[x] && g[x - 1] == second[x]);
            }
        }
    }
}

} // verus!
