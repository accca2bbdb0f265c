//! What the graph shows: which interface, which part of its history, and
//! how high the vertical axis reaches.

use vstd::prelude::*;
use crate::lane::{lane_of, Lane};
use crate::text::same_name;
use crate::throughput::{HistoryPoint, ThroughputTracker, UNITS_PER_MBPS};

verus! {

/// How many ticks the graph spans.
pub const WINDOW_WIDTH: u64 = 300;

/// An address that an interface has.
#[derive(Debug)]
pub struct InterfaceAddress {
    pub name: String,
    pub address: String,
}

/// The point lies in the window that ends at `latest`.
pub open spec fn is_visible(point: HistoryPoint, latest: u64) -> bool {
    point.sequence <= latest && latest - point.sequence <= WINDOW_WIDTH
}

/// The points of a history that lie in the window that ends at `latest`.
pub open spec fn visible(history: Seq<HistoryPoint>, latest: u64) -> Seq<HistoryPoint> {
    history.filter(|p: HistoryPoint| is_visible(p, latest))
}

/// How high the vertical axis reaches for these points: as high as the
/// highest of them, and one megabit per second at the least.
pub open spec fn ceiling_of(points: Seq<HistoryPoint>) -> u64
    decreases points.len(),
{
    if points.len() == 0 {
        UNITS_PER_MBPS
    } else {
        let rest = ceiling_of(points.drop_last());
        if points.last().throughput > rest {
            points.last().throughput
        } else {
            rest
        }
    }
}

/// The ceiling is the greatest throughput among the points, or one megabit
/// per second where none of them reaches that.
pub proof fn lemma_ceiling(points: Seq<HistoryPoint>)
    ensures
        ceiling_of(points) >= UNITS_PER_MBPS,
        forall|i: int| 0 <= i < points.len() ==> (#[trigger] points[i]).throughput <= ceiling_of(points),
        ceiling_of(points) == UNITS_PER_MBPS || exists|i: int|
            0 <= i < points.len() && (#[trigger] points[i]).throughput == ceiling_of(points),
    decreases points.len(),
{
    if points.len() > 0 {
        let front = points.drop_last();
        lemma_ceiling(front);
        assert forall|i: int| 0 <= i < points.len() implies (#[trigger] points[i]).throughput
            <= ceiling_of(points) by {
            if i < front.len() {
                assert(front[i] == points[i]);
            }
        }
        if ceiling_of(points) != UNITS_PER_MBPS {
            if points.last().throughput > ceiling_of(front) {
                assert(points[points.len() - 1].throughput == ceiling_of(points));
            } else {
                let i = choose|i: int|
                    0 <= i < front.len() && (#[trigger] front[i]).throughput == ceiling_of(front);
                assert(points[i] == front[i]);
            }
        }
    }
}

/// The part of a history that the graph shows, with the bounds of its axes.
#[derive(Debug)]
pub struct GraphWindow {
    /// The tick at the left edge; negative while fewer ticks have passed than
    /// the window spans.
    pub first: i128,
    /// The tick at the right edge.
    pub last: u64,
    /// The throughput at the upper edge.
    pub ceiling: u64,
    /// The points to draw, oldest first.
    pub points: Vec<HistoryPoint>,
}

/// The window of a history that ends at the tick `latest`. The ceiling goes
/// by the points shown alone, so one high point rescales the whole graph and
/// leaves no trace when it has left the window.
pub fn window(history: &Vec<HistoryPoint>, latest: u64) -> (shown: GraphWindow)
    ensures
        shown.last == latest,
        shown.first == latest - WINDOW_WIDTH,
        shown.points@ == visible(history@, latest),
        shown.ceiling == ceiling_of(shown.points@),
{
    let ghost keep = |p: HistoryPoint| is_visible(p, latest);
    let mut points: Vec<HistoryPoint> = Vec::new();
    let mut ceiling: u64 = UNITS_PER_MBPS;
    let mut i: usize = 0;
    proof {
        reveal(Seq::filter);
        assert(history@.take(0) =~= Seq::<HistoryPoint>::empty());
    }
    while i < history.len()
        invariant
            i <= history.len(),
            keep == |p: HistoryPoint| is_visible(p, latest),
            points@ == visible(history@.take(i as int), latest),
            ceiling == ceiling_of(points@),
        decreases history.len() - i,
    {
        let point = history[i];
        proof {
            assert(history@.take(i + 1) =~= history@.take(i as int).push(point));
            history@.take(i as int).lemma_filter_push(point, keep);
        }
        if point.sequence <= latest && latest - point.sequence <= WINDOW_WIDTH {
            let ghost before = points@;
            points.push(point);
            assert(points@.drop_last() =~= before);
            if point.throughput > ceiling {
                ceiling = point.throughput;
            }
        }
        i += 1;
    }
    assert(history@.take(i as int) =~= history@);
    GraphWindow { first: latest as i128 - WINDOW_WIDTH as i128, last: latest, ceiling, points }
}

/// Some address belongs to the interface of this name.
pub open spec fn has_address(addresses: Seq<InterfaceAddress>, name: Seq<char>) -> bool {
    exists|i: int| 0 <= i < addresses.len() && (#[trigger] addresses[i]).name@ == name
}

/// The interface may be graphed: it has an address, and it is a tunnel where
/// tunnels are asked for, an uplink (wired or wireless) where they are not.
pub open spec fn is_candidate(name: Seq<char>, addresses: Seq<InterfaceAddress>, tunnels: bool) -> bool {
    has_address(addresses, name) && (if tunnels {
        lane_of(name) == Lane::Tunnel
    } else {
        lane_of(name) == Lane::Physical || lane_of(name) == Lane::Wireless
    })
}

/// The interfaces that may be graphed, in the order of `names`.
pub open spec fn candidates(
    names: Seq<Seq<char>>,
    addresses: Seq<InterfaceAddress>,
    tunnels: bool,
) -> Seq<Seq<char>> {
    names.filter(|n: Seq<char>| is_candidate(n, addresses, tunnels))
}

/// The tunnel whose turn it is at `graph_index`: the tunnels take turns, each
/// for two indices in a row.
pub open spec fn tunnel_in_turn(tunnels: Seq<Seq<char>>, graph_index: nat) -> Seq<char> {
    tunnels[((graph_index / 2) % tunnels.len()) as int]
}

/// The interface to graph. At an odd `graph_index` it is the tunnel whose
/// turn it is; at an even one, and where there is no tunnel, the first
/// uplink. Where there is no uplink the tunnel in turn is shown at an even
/// index too. `None` only where neither a tunnel nor an uplink may be
/// graphed.
pub open spec fn chosen(
    names: Seq<Seq<char>>,
    addresses: Seq<InterfaceAddress>,
    graph_index: nat,
) -> Option<Seq<char>> {
    let tunnels = candidates(names, addresses, true);
    let uplinks = candidates(names, addresses, false);
    if graph_index % 2 != 0 && tunnels.len() > 0 {
        Some(tunnel_in_turn(tunnels, graph_index))
    } else if uplinks.len() > 0 {
        Some(uplinks[0])
    } else if tunnels.len() > 0 {
        Some(tunnel_in_turn(tunnels, graph_index))
    } else {
        None
    }
}

/// Something is graphed wherever a tunnel or an uplink may be graphed.
pub proof fn lemma_placeholder_only_for_nothing(
    names: Seq<Seq<char>>,
    addresses: Seq<InterfaceAddress>,
    graph_index: nat,
)
    ensures
        chosen(names, addresses, graph_index) is None <==> candidates(names, addresses, true).len()
            == 0 && candidates(names, addresses, false).len() == 0,
{
}

/// The names at some positions of `names`.
pub open spec fn names_at(names: Seq<Seq<char>>, positions: Seq<usize>) -> Seq<Seq<char>> {
    Seq::new(positions.len(), |k: int| names[positions[k] as int])
}

/// Whether some address belongs to the interface of this name.
pub fn addressed(addresses: &Vec<InterfaceAddress>, name: &str) -> (found: bool)
    ensures
        found == has_address(addresses@, name@),
{
    let mut i: usize = 0;
    while i < addresses.len()
        invariant
            i <= addresses.len(),
            forall|k: int| 0 <= k < i ==> (#[trigger] addresses@[k]).name@ != name@,
        decreases addresses.len() - i,
    {
        if same_name(addresses[i].name.as_str(), name) {
            return true;
        }
        i += 1;
    }
    false
}

/// The positions, among the tracked interfaces, of those that may be graphed.
pub fn candidate_positions(
    tracker: &ThroughputTracker,
    addresses: &Vec<InterfaceAddress>,
    tunnels: bool,
) -> (positions: Vec<usize>)
    requires
        tracker.wf(),
    ensures
        forall|k: int| 0 <= k < positions@.len() ==> (#[trigger] positions@[k]) < tracker.names().len(),
        names_at(tracker.names(), positions@) == candidates(tracker.names(), addresses@, tunnels),
{
    let ghost names = tracker.names();
    let ghost keep = |n: Seq<char>| is_candidate(n, addresses@, tunnels);
    let mut positions: Vec<usize> = Vec::new();
    let mut i: usize = 0;
    proof {
        reveal(Seq::filter);
        assert(names.take(0) =~= Seq::<Seq<char>>::empty());
        assert(names_at(names, positions@) =~= candidates(names.take(0), addresses@, tunnels));
    }
    while i < tracker.len()
        invariant
            tracker.wf(),
            names == tracker.names(),
            i <= names.len(),
            keep == |n: Seq<char>| is_candidate(n, addresses@, tunnels),
            forall|k: int| 0 <= k < positions@.len() ==> (#[trigger] positions@[k]) < names.len(),
            names_at(names, positions@) == candidates(names.take(i as int), addresses@, tunnels),
        decreases names.len() - i,
    {
        let sample = tracker.sample_at(i);
        let ghost before = names_at(names, positions@);
        proof {
            assert(names.take(i + 1) =~= names.take(i as int).push(names[i as int]));
            names.take(i as int).lemma_filter_push(names[i as int], keep);
        }
        let of_kind = if tunnels {
            sample.lane == Lane::Tunnel
        } else {
            sample.lane.is_uplink()
        };
        if of_kind && addressed(addresses, sample.name.as_str()) {
            positions.push(i);
            assert(names_at(names, positions@) =~= before.push(names[i as int]));
        } else {
            assert(names_at(names, positions@) =~= before);
        }
        i += 1;
    }
    assert(names.take(i as int) =~= names);
    positions
}

/// The position, among the tracked interfaces, of the one to graph.
pub fn choose_series(
    tracker: &ThroughputTracker,
    addresses: &Vec<InterfaceAddress>,
    graph_index: usize,
) -> (position: Option<usize>)
    requires
        tracker.wf(),
    ensures
        position is Some <==> chosen(tracker.names(), addresses@, graph_index as nat) is Some,
        position is Some ==> position->0 < tracker.names().len() && tracker.names()[position->0 as int]
            == chosen(tracker.names(), addresses@, graph_index as nat)->0,
{
    let tunnels = candidate_positions(tracker, addresses, true);
    let uplinks = candidate_positions(tracker, addresses, false);
    if tunnels.len() > 0 && (graph_index % 2 != 0 || uplinks.len() == 0) {
        let turn = (graph_index / 2) % tunnels.len();
        assert(names_at(tracker.names(), tunnels@)[turn as int] == tracker.names()[tunnels@[turn as int] as int]);
        Some(tunnels[turn])
    } else if uplinks.len() > 0 {
        assert(names_at(tracker.names(), uplinks@)[0] == tracker.names()[uplinks@[0] as int]);
        Some(uplinks[0])
    } else {
        None
    }
}

} // verus!
