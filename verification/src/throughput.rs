//! Per-interface throughput, from successive snapshots of byte counters.
//!
//! Throughput is kept in fixed point. A tick lasts half a second, so the
//! bytes received during one tick, times eight, over half of 1024 * 1024,
//! are megabits per second; in units of 1/65536 Mbps that is the byte count
//! itself.
//!
//! The ticks are counted in a `u64`. After its last value the count starts
//! again at 0, and every history with it, so that the ticks of a history
//! are in order at every time.

use vstd::prelude::*;
use vstd::arithmetic::div_mod::lemma_div_multiples_vanish;
use crate::lane::{is_untracked, lane_of, untracked, Lane};
use crate::names::{lemma_ordered_distinct, strictly_ordered, NameMap};
use crate::net_monitor::{CounterSnapshot, NetStats};

verus! {

/// How many points a history keeps.
pub const HISTORY_LIMIT: usize = 300;

/// The length of a tick, in milliseconds.
pub const TICK_MILLIS: u64 = 500;

/// How many units of throughput make one megabit per second.
pub const UNITS_PER_MBPS: u64 = 65536;

/// One point of a history: the tick it was taken at and the throughput then.
#[derive(Clone, Copy, PartialEq, Eq, Debug, Structural)]
pub struct HistoryPoint {
    pub sequence: u64,
    pub throughput: u64,
}

/// The bytes received between two readings of a counter. A counter that went
/// down was reset or wrapped, and counts as nothing received.
pub open spec fn received(previous_rx: u64, current_rx: u64) -> nat {
    if current_rx >= previous_rx {
        (current_rx - previous_rx) as nat
    } else {
        0
    }
}

/// The throughput over one tick, in units of 1/65536 Mbps.
pub open spec fn throughput_units(previous_rx: u64, current_rx: u64) -> nat {
    (received(previous_rx, current_rx) * 8 * UNITS_PER_MBPS as nat * 1000) / (TICK_MILLIS as nat
        * 1024 * 1024)
}

/// The throughput in units is the number of bytes received during the tick.
pub proof fn lemma_throughput_is_received(previous_rx: u64, current_rx: u64)
    ensures
        throughput_units(previous_rx, current_rx) == received(previous_rx, current_rx),
        throughput_units(previous_rx, current_rx) <= u64::MAX,
{
    let bytes = received(previous_rx, current_rx) as int;
    assert(bytes * 8 * 65536 * 1000 == 524288000 * bytes);
    lemma_div_multiples_vanish(bytes, 524288000);
}

/// The throughput between two readings of an interface's counters.
pub fn throughput_between(previous: &NetStats, current: &NetStats) -> (units: u64)
    ensures
        units == throughput_units(previous.rx, current.rx),
        current.rx < previous.rx ==> units == 0,
        current.rx >= previous.rx ==> units == current.rx - previous.rx,
{
    proof {
        lemma_throughput_is_received(previous.rx, current.rx);
    }
    current.rx.saturating_sub(previous.rx)
}

/// The whole megabits per second in a throughput.
pub fn whole_mbps(units: u64) -> (mbps: u64)
    ensures
        mbps == units / UNITS_PER_MBPS,
{
    units / UNITS_PER_MBPS
}

/// A throughput in thousandths of a megabit per second, rounded down.
pub fn milli_mbps(units: u64) -> (milli: u64)
    ensures
        milli == (units * 1000) / (UNITS_PER_MBPS as int),
{
    let whole: u64 = units / UNITS_PER_MBPS;
    let rest: u64 = units % UNITS_PER_MBPS;
    assert((units * 1000) / 65536 == (units / 65536) * 1000 + ((units % 65536) * 1000) / 65536)
        by (nonlinear_arith);
    whole * 1000 + (rest * 1000) / UNITS_PER_MBPS
}

/// Each point was taken at a later tick than the one before it.
pub open spec fn increasing(history: Seq<HistoryPoint>) -> bool {
    forall|i: int, j: int|
        0 <= i < j < history.len() ==> (#[trigger] history[i]).sequence
            < (#[trigger] history[j]).sequence
}

/// A history with one more point at its end, the oldest point dropped where
/// the history would otherwise be longer than the limit.
pub open spec fn slide(history: Seq<HistoryPoint>, point: HistoryPoint) -> Seq<HistoryPoint> {
    let all = history.push(point);
    if all.len() > HISTORY_LIMIT {
        all.drop_first()
    } else {
        all
    }
}

/// The live state of one interface.
#[derive(Debug)]
pub struct InterfaceSample {
    pub name: String,
    pub history: Vec<HistoryPoint>,
    pub current_speed: u64,
    pub lane: Lane,
}

impl InterfaceSample {
    /// The history is bounded and in order, the speed is that of its last
    /// point, and the lane is that of the name.
    pub open spec fn wf(&self) -> bool {
        &&& self.history@.len() <= HISTORY_LIMIT
        &&& increasing(self.history@)
        &&& self.history@.len() > 0 ==> self.current_speed == self.history@.last().throughput
        &&& self.lane == lane_of(self.name@)
    }

    /// Every point of the history was taken before `sequence`.
    pub open spec fn older_than(&self, sequence: u64) -> bool {
        forall|i: int| 0 <= i < self.history@.len() ==> (#[trigger] self.history@[i]).sequence
            < sequence
    }

    /// The state of an interface that was not measured yet.
    pub fn new(name: String) -> (sample: Self)
        ensures
            sample.wf(),
            sample.name@ == name@,
            sample.history@ == Seq::<HistoryPoint>::empty(),
            sample.current_speed == 0,
    {
        let lane = Lane::of(name.as_str());
        InterfaceSample { name, history: Vec::new(), current_speed: 0, lane }
    }

    /// Appends a point to the history and drops the oldest one where the
    /// history has grown over its limit.
    pub fn record(&mut self, sequence: u64, throughput: u64)
        requires
            old(self).wf(),
            old(self).older_than(sequence),
        ensures
            final(self).wf(),
            final(self).history@ == slide(old(self).history@, HistoryPoint { sequence, throughput }),
            final(self).history@.len() > 0,
            final(self).history@.last() == (HistoryPoint { sequence, throughput }),
            final(self).current_speed == throughput,
            final(self).name == old(self).name,
            final(self).lane == old(self).lane,
    {
        self.current_speed = throughput;
        self.history.push(HistoryPoint { sequence, throughput });
        if self.history.len() > HISTORY_LIMIT {
            self.history.remove(0);
        }
        proof {
            let all = old(self).history@.push(HistoryPoint { sequence, throughput });
            assert(increasing(all));
            assert(all.drop_first() =~= all.remove(0));
        }
    }
}

/// An interface is measured at a tick if the snapshot before it and the
/// snapshot of the tick both hold it, and it is not left out of tracking.
pub open spec fn is_measured(
    name: Seq<char>,
    previous: Map<Seq<char>, NetStats>,
    current: Map<Seq<char>, NetStats>,
) -> bool {
    current.contains_key(name) && previous.contains_key(name) && !is_untracked(name)
}

/// The history that an interface has before a tick: none if it is not tracked.
pub open spec fn prior_history(
    samples: Map<Seq<char>, InterfaceSample>,
    name: Seq<char>,
) -> Seq<HistoryPoint> {
    if samples.contains_key(name) {
        samples[name].history@
    } else {
        Seq::empty()
    }
}

/// The number of the tick after the tick `sequence`.
pub open spec fn next_tick(sequence: u64) -> u64 {
    if sequence < u64::MAX {
        (sequence + 1) as u64
    } else {
        0
    }
}

/// `sample` is the state of the interface `name` after a tick at which it
/// had the history `prior` and was measured with `throughput`.
pub open spec fn measured_as(
    sample: InterfaceSample,
    name: Seq<char>,
    prior: Seq<HistoryPoint>,
    sequence: u64,
    throughput: nat,
) -> bool {
    &&& sample.name@ == name
    &&& sample.lane == lane_of(name)
    &&& sample.current_speed == throughput
    &&& sample.history@ == slide(prior, HistoryPoint { sequence, throughput: throughput as u64 })
}

/// `sample` is a state that the tracker holds under `name` at the tick
/// `sequence`: well formed, and measured at that tick.
pub open spec fn tracked_at(sample: InterfaceSample, name: Seq<char>, sequence: u64) -> bool {
    &&& sample.wf()
    &&& sample.name@ == name
    &&& !is_untracked(name)
    &&& sample.history@.len() > 0
    &&& sample.history@.last().sequence == sequence
}

/// `sample` is a state of the interface `name` that the tick `sequence` can
/// add a point to.
spec fn may_follow(sample: InterfaceSample, name: Seq<char>, sequence: u64) -> bool {
    &&& sample.wf()
    &&& sample.name@ == name
    &&& !is_untracked(name)
    &&& sample.older_than(sequence)
}

/// `name` is one of the first `count` names.
spec fn among_first(names: Seq<Seq<char>>, count: int, name: Seq<char>) -> bool {
    exists|k: int| 0 <= k < count && k < names.len() && #[trigger] names[k] == name
}

/// The states after a tick, from those before it and the two snapshots.
fn measure(
    prior: NameMap<InterfaceSample>,
    previous: &CounterSnapshot,
    current: &CounterSnapshot,
    sequence: u64,
) -> (next: NameMap<InterfaceSample>)
    requires
        prior.wf(),
        previous.wf(),
        current.wf(),
        forall|n: Seq<char>| #[trigger]
            prior@.contains_key(n) ==> may_follow(prior@[n], n, sequence)
                && previous@.contains_key(n),
    ensures
        next.wf(),
        forall|n: Seq<char>| #[trigger]
            next@.contains_key(n) <==> is_measured(n, previous@, current@),
        forall|n: Seq<char>| #[trigger]
            next@.contains_key(n) ==> tracked_at(next@[n], n, sequence) && measured_as(
                next@[n],
                n,
                prior_history(prior@, n),
                sequence,
                throughput_units(previous@[n].rx, current@[n].rx),
            ),
{
    let ghost before = prior@;
    let mut prior = prior;
    let mut next: NameMap<InterfaceSample> = NameMap::new();
    let mut j: usize = 0;
    proof {
        current.lemma_positions();
    }
    while j < current.len()
        invariant
            prior.wf(),
            previous.wf(),
            current.wf(),
            next.wf(),
            j <= current.names().len(),
            strictly_ordered(current.names()),
            forall|n: Seq<char>| #[trigger]
                before.contains_key(n) ==> may_follow(before[n], n, sequence)
                    && previous@.contains_key(n),
            forall|n: Seq<char>| #[trigger]
                prior@.contains_key(n) <==> before.contains_key(n) && !among_first(
                    current.names(),
                    j as int,
                    n,
                ),
            forall|n: Seq<char>| #[trigger] prior@.contains_key(n) ==> prior@[n] == before[n],
            forall|n: Seq<char>| #[trigger]
                next@.contains_key(n) <==> among_first(current.names(), j as int, n)
                    && is_measured(n, previous@, current@),
            forall|n: Seq<char>| #[trigger]
                next@.contains_key(n) ==> tracked_at(next@[n], n, sequence) && measured_as(
                    next@[n],
                    n,
                    prior_history(before, n),
                    sequence,
                    throughput_units(previous@[n].rx, current@[n].rx),
                ),
        decreases current.names().len() - j,
    {
        let name = current.name_at(j);
        let stats = current.value_at(j);
        let ghost n0 = name@;
        let ghost prior_before = prior@;
        let ghost next_before = next@;
        proof {
            if among_first(current.names(), j as int, n0) {
                let k = choose|k: int|
                    0 <= k < j && k < current.names().len() && #[trigger] current.names()[k] == n0;
                lemma_ordered_distinct(current.names(), k, j as int);
            }
            assert forall|n: Seq<char>|
                among_first(current.names(), j + 1, n) <==> among_first(
                    current.names(),
                    j as int,
                    n,
                ) || n == n0 by {
                if among_first(current.names(), j + 1, n) {
                    let k = choose|k: int|
                        0 <= k < j + 1 && k < current.names().len() && #[trigger] current.names()[k]
                            == n;
                    if k < j {
                        assert(among_first(current.names(), j as int, n));
                    }
                }
                if n == n0 {
                    assert(current.names()[j as int] == n);
                }
                if among_first(current.names(), j as int, n) {
                    let k = choose|k: int|
                        0 <= k < j && k < current.names().len() && #[trigger] current.names()[k]
                            == n;
                    assert(among_first(current.names(), j + 1, n));
                }
            }
        }
        let mut measured = false;
        if !untracked(name.as_str()) {
            if let Some(earlier) = previous.get(name.as_str()) {
                let units = throughput_between(earlier, stats);
                let mut sample = match prior.take(name.as_str()) {
                    Some(known) => known,
                    None => InterfaceSample::new(name.clone()),
                };
                assert(sample.history@ == prior_history(before, n0));
                assert(sample.older_than(sequence)) by {
                    if before.contains_key(n0) {
                        assert(may_follow(before[n0], n0, sequence));
                    }
                }
                sample.record(sequence, units);
                next.insert(name.clone(), sample);
                measured = true;
                proof {
                    lemma_throughput_is_received(earlier.rx, stats.rx);
                }
            }
        }
        proof {
            if !measured {
                assert(!is_measured(n0, previous@, current@));
                assert(next@ == next_before);
                assert(current@.contains_key(n0));
                assert(!before.contains_key(n0)) by {
                    if before.contains_key(n0) {
                        assert(may_follow(before[n0], n0, sequence));
                        assert(previous@.contains_key(n0));
                    }
                }
                assert(prior@ == prior_before);
            }
        }
        j += 1;
    }
    proof {
        assert forall|n: Seq<char>|
            among_first(current.names(), j as int, n) <==> current@.contains_key(n) by {
            if among_first(current.names(), j as int, n) {
                let k = choose|k: int|
                    0 <= k < j && k < current.names().len() && #[trigger] current.names()[k] == n;
            }
            if current@.contains_key(n) {
                let k = current.names().index_of(n);
                assert(current.names()[k] == n);
            }
        }
    }
    next
}

/// The throughput state of every tracked interface.
pub struct ThroughputTracker {
    interfaces: NameMap<InterfaceSample>,
    baseline: CounterSnapshot,
    sequence: u64,
}

impl ThroughputTracker {
    /// The tracked interfaces, by name.
    pub closed spec fn samples(&self) -> Map<Seq<char>, InterfaceSample> {
        self.interfaces@
    }

    /// The names of the tracked interfaces, in order.
    pub closed spec fn names(&self) -> Seq<Seq<char>> {
        self.interfaces.names()
    }

    /// The snapshot that the next one is measured against.
    pub closed spec fn baseline(&self) -> Map<Seq<char>, NetStats> {
        self.baseline@
    }

    /// The number of the last tick.
    pub closed spec fn sequence(&self) -> u64 {
        self.sequence
    }

    /// Every tracked interface was measured at the last tick and is held by
    /// the baseline.
    pub closed spec fn wf(&self) -> bool {
        &&& self.interfaces.wf()
        &&& self.baseline.wf()
        &&& forall|n: Seq<char>| #[trigger]
            self.interfaces@.contains_key(n) ==> tracked_at(self.interfaces@[n], n, self.sequence)
                && self.baseline@.contains_key(n)
    }

    /// The history that an interface takes into the next tick: the one it
    /// has, and none where it is not tracked or the count of the ticks
    /// starts again.
    pub open spec fn carried(&self, name: Seq<char>) -> Seq<HistoryPoint> {
        if self.sequence() < u64::MAX {
            prior_history(self.samples(), name)
        } else {
            Seq::empty()
        }
    }

    /// `self` is the state that follows `before` when the snapshot `current`
    /// is taken: the interfaces measured at this tick are tracked, each with
    /// one more point in its history, and no other.
    pub open spec fn follows(&self, before: Self, current: Map<Seq<char>, NetStats>) -> bool {
        &&& self.sequence() == next_tick(before.sequence())
        &&& self.baseline() == current
        &&& forall|n: Seq<char>| #[trigger]
            self.samples().contains_key(n) <==> is_measured(n, before.baseline(), current)
        &&& forall|n: Seq<char>| #[trigger]
            self.samples().contains_key(n) ==> measured_as(
                self.samples()[n],
                n,
                before.carried(n),
                self.sequence(),
                throughput_units(before.baseline()[n].rx, current[n].rx),
            )
    }

    /// What holds of every tracked interface, at every time.
    pub proof fn lemma_invariant(&self)
        requires
            self.wf(),
        ensures
            strictly_ordered(self.names()),
            forall|n: Seq<char>| #[trigger] self.samples().contains_key(n) <==> self.names().contains(n),
            forall|n: Seq<char>| #[trigger]
                self.samples().contains_key(n) ==> {
                    &&& tracked_at(self.samples()[n], n, self.sequence())
                    &&& self.baseline().contains_key(n)
                    &&& self.samples()[n].history@.len() <= HISTORY_LIMIT
                    &&& increasing(self.samples()[n].history@)
                    &&& self.samples()[n].current_speed >= 0
                },
    {
        self.interfaces.lemma_positions();
    }

    /// A tracker that tracks nothing yet and measures the first snapshot
    /// against `baseline`.
    pub fn new(baseline: CounterSnapshot) -> (tracker: Self)
        requires
            baseline.wf(),
        ensures
            tracker.wf(),
            tracker.samples() == Map::<Seq<char>, InterfaceSample>::empty(),
            tracker.baseline() == baseline@,
            tracker.sequence() == 0,
    {
        ThroughputTracker { interfaces: NameMap::new(), baseline, sequence: 0 }
    }

    /// Takes the snapshot of a new tick. Every interface that this snapshot
    /// and the one before it hold, and that is not left out of tracking, gets
    /// a point in its history; every other interface is tracked no longer.
    /// The throughput of the point is the number of bytes received since the
    /// snapshot before, and 0 where the counter went down.
    pub fn update(&mut self, current: CounterSnapshot)
        requires
            old(self).wf(),
            current.wf(),
        ensures
            final(self).wf(),
            final(self).follows(*old(self), current@),
            forall|n: Seq<char>| #[trigger]
                final(self).samples().contains_key(n) ==> final(self).samples()[n].history@.len()
                    <= HISTORY_LIMIT && increasing(final(self).samples()[n].history@),
            forall|n: Seq<char>| #[trigger]
                final(self).samples().contains_key(n) ==> {
                    let sample = final(self).samples()[n];
                    let before = old(self).baseline()[n].rx;
                    &&& sample.current_speed == received(before, current@[n].rx)
                    &&& sample.current_speed >= 0
                    &&& current@[n].rx < before ==> sample.current_speed == 0
                    &&& sample.history@.len() > 0
                    &&& sample.history@.last().throughput == sample.current_speed
                    &&& sample.history@.last().sequence == final(self).sequence()
                },
            forall|n: Seq<char>|
                !current@.contains_key(n) ==> !(#[trigger] final(self).samples().contains_key(n)),
    {
        let mut prior: NameMap<InterfaceSample> = NameMap::new();
        let sequence: u64 = if self.sequence < u64::MAX {
            std::mem::swap(&mut self.interfaces, &mut prior);
            self.sequence + 1
        } else {
            0
        };
        proof {
            assert forall|n: Seq<char>| #[trigger] prior@.contains_key(n) implies may_follow(
                prior@[n],
                n,
                sequence,
            ) && self.baseline@.contains_key(n) by {
                let history = prior@[n].history@;
                assert(tracked_at(prior@[n], n, self.sequence));
                assert forall|i: int| 0 <= i < history.len() implies (#[trigger] history[i]).sequence
                    < sequence by {
                    if i < history.len() - 1 {
                        assert(history[i].sequence < history[history.len() - 1].sequence);
                    }
                }
            }
            assert forall|n: Seq<char>|
                prior_history(prior@, n) == old(self).carried(n) by {}
        }
        let ghost earlier = self.baseline@;
        let next = measure(prior, &self.baseline, &current, sequence);
        proof {
            assert forall|n: Seq<char>| #[trigger] next@.contains_key(n) implies next@[n].current_speed
                == received(earlier[n].rx, current@[n].rx) by {
                lemma_throughput_is_received(earlier[n].rx, current@[n].rx);
            }
        }
        self.interfaces = next;
        self.baseline = current;
        self.sequence = sequence;
    }

    /// The number of the last tick.
    pub fn latest_sequence(&self) -> (sequence: u64)
        ensures
            sequence == self.sequence(),
    {
        self.sequence
    }

    /// How many interfaces are tracked.
    pub fn len(&self) -> (n: usize)
        ensures
            n == self.names().len(),
    {
        self.interfaces.len()
    }

    /// The tracked interface at a position; the positions go by name.
    pub fn sample_at(&self, i: usize) -> (sample: &InterfaceSample)
        requires
            self.wf(),
            i < self.names().len(),
        ensures
            self.samples().contains_key(self.names()[i as int]),
            *sample == self.samples()[self.names()[i as int]],
            sample.name@ == self.names()[i as int],
            tracked_at(*sample, self.names()[i as int], self.sequence()),
    {
        self.interfaces.value_at(i)
    }

    /// The tracked interface of a name, if there is one.
    pub fn find(&self, name: &str) -> (sample: Option<&InterfaceSample>)
        requires
            self.wf(),
        ensures
            sample is Some <==> self.samples().contains_key(name@),
            sample is Some ==> *sample->0 == self.samples()[name@],
    {
        self.interfaces.get(name)
    }
}

} // verus!
