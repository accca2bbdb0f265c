//! The frame that the front end draws, as plain values.

use vstd::prelude::*;
use crate::connection::ConnectionState;
use crate::graph::{
    ceiling_of, choose_series, chosen, visible, window, GraphWindow, InterfaceAddress, WINDOW_WIDTH,
};
use crate::lane::{lane_of, Lane};
use crate::selection::{
    current_list, origin_of, secret_of, BrowseMode, SelectionState, SelectionView,
};
use crate::text::{names_of, same_name};
use crate::throughput::{InterfaceSample, ThroughputTracker};

verus! {

/// One row of the list of names.
#[derive(Debug)]
pub struct ListRow {
    pub name: String,
    /// The tunnel is up, or the network is the associated one.
    pub active: bool,
}

/// One row of the table of addresses.
#[derive(Debug)]
pub struct AddressRow {
    pub name: String,
    pub address: String,
    pub lane: Lane,
}

/// The graph of one interface.
#[derive(Debug)]
pub struct SeriesPanel {
    pub name: String,
    pub speed: u64,
    pub lane: Lane,
    pub window: GraphWindow,
}

/// Everything that a frame shows.
#[derive(Debug)]
pub struct FrameDescription {
    /// Which list is shown.
    pub list: BrowseMode,
    pub rows: Vec<ListRow>,
    /// The row under the cursor; none in an empty list.
    pub highlighted: Option<usize>,
    pub addresses: Vec<AddressRow>,
    /// The graph; `None` where there is no interface to graph.
    pub graph: Option<SeriesPanel>,
    /// While a secret is entered, the number of characters typed so far.
    pub secret_mask: Option<usize>,
}

/// Whether a name of a list is marked: a tunnel that is up, or the network
/// that is associated.
pub open spec fn is_marked(
    mode: BrowseMode,
    name: Seq<char>,
    active: Seq<Seq<char>>,
    ssid: Seq<char>,
) -> bool {
    match mode {
        BrowseMode::Vpn => active.contains(name),
        BrowseMode::Wifi => name == ssid,
    }
}

/// The rows show the names of the list, in order, each with its mark.
pub open spec fn rows_show(
    rows: Seq<ListRow>,
    mode: BrowseMode,
    names: Seq<Seq<char>>,
    active: Seq<Seq<char>>,
    ssid: Seq<char>,
) -> bool {
    &&& rows.len() == names.len()
    &&& forall|i: int|
        0 <= i < rows.len() ==> (#[trigger] rows[i]).name@ == names[i] && rows[i].active
            == is_marked(mode, names[i], active, ssid)
}

/// The rows show the addresses, in order, each with the lane of its interface.
pub open spec fn addresses_show(rows: Seq<AddressRow>, addresses: Seq<InterfaceAddress>) -> bool {
    &&& rows.len() == addresses.len()
    &&& forall|i: int|
        0 <= i < rows.len() ==> (#[trigger] rows[i]).name@ == addresses[i].name@
            && rows[i].address@ == addresses[i].address@ && rows[i].lane == lane_of(
            addresses[i].name@,
        )
}

/// The panel graphs the chosen interface: its latest speed, and the part of
/// its history inside the window that ends at the tick `latest`.
pub open spec fn panel_shows(
    panel: Option<SeriesPanel>,
    choice: Option<Seq<char>>,
    samples: Map<Seq<char>, InterfaceSample>,
    latest: u64,
) -> bool {
    match choice {
        None => panel is None,
        Some(name) => {
            &&& panel is Some
            &&& panel->0.name@ == name
            &&& panel->0.speed == samples[name].current_speed
            &&& panel->0.lane == lane_of(name)
            &&& panel->0.window.points@ == visible(samples[name].history@, latest)
            &&& panel->0.window.ceiling == ceiling_of(panel->0.window.points@)
            &&& panel->0.window.last == latest
            &&& panel->0.window.first == latest - WINDOW_WIDTH
        },
    }
}

/// The frame shows the state: the list that the cursor points into with its
/// marks and the row under the cursor, the addresses, the graph of the chosen
/// interface, and the length of the secret while one is entered.
pub open spec fn depicts(
    frame: FrameDescription,
    selection: SelectionView,
    active: Seq<Seq<char>>,
    ssid: Seq<char>,
    tracker: ThroughputTracker,
    addresses: Seq<InterfaceAddress>,
    graph_index: usize,
) -> bool {
    &&& frame.list == origin_of(selection.mode)
    &&& rows_show(frame.rows@, frame.list, current_list(selection), active, ssid)
    &&& frame.highlighted == (if current_list(selection).len() > 0 {
        Some(selection.cursor as usize)
    } else {
        None
    })
    &&& addresses_show(frame.addresses@, addresses)
    &&& panel_shows(
        frame.graph,
        chosen(tracker.names(), addresses, graph_index as nat),
        tracker.samples(),
        tracker.sequence(),
    )
    &&& frame.secret_mask == (if selection.mode is SecretEntry {
        Some(secret_of(selection).len() as usize)
    } else {
        None
    })
}

/// The rows of the list that the cursor points into.
pub fn list_rows(selection: &SelectionState, connection: &ConnectionState) -> (rows: Vec<ListRow>)
    ensures
        rows_show(
            rows@,
            origin_of(selection@.mode),
            current_list(selection@),
            connection.active(),
            connection.ssid(),
        ),
{
    let mode = selection.origin();
    let names = selection.current_names();
    let mut rows: Vec<ListRow> = Vec::new();
    let mut i: usize = 0;
    while i < names.len()
        invariant
            i <= names.len(),
            mode == origin_of(selection@.mode),
            names_of(names@) == current_list(selection@),
            rows_show(
                rows@,
                mode,
                current_list(selection@).take(i as int),
                connection.active(),
                connection.ssid(),
            ),
        decreases names.len() - i,
    {
        assert(names_of(names@)[i as int] == names@[i as int]@);
        let active = match mode {
            BrowseMode::Vpn => connection.is_active(names[i].as_str()),
            BrowseMode::Wifi => same_name(names[i].as_str(), connection.active_ssid().as_str()),
        };
        rows.push(ListRow { name: names[i].clone(), active });
        i += 1;
    }
    assert(current_list(selection@).take(i as int) =~= current_list(selection@));
    rows
}

/// The rows of the table of addresses.
pub fn address_rows(addresses: &Vec<InterfaceAddress>) -> (rows: Vec<AddressRow>)
    ensures
        addresses_show(rows@, addresses@),
{
    let mut rows: Vec<AddressRow> = Vec::new();
    let mut i: usize = 0;
    while i < addresses.len()
        invariant
            i <= addresses.len(),
            addresses_show(rows@, addresses@.take(i as int)),
        decreases addresses.len() - i,
    {
        let entry = &addresses[i];
        rows.push(
            AddressRow {
                name: entry.name.clone(),
                address: entry.address.clone(),
                lane: Lane::of(entry.name.as_str()),
            },
        );
        i += 1;
    }
    assert(addresses@.take(i as int) =~= addresses@);
    rows
}

/// The graph of the interface that is chosen at `graph_index`.
pub fn graph_panel(
    tracker: &ThroughputTracker,
    addresses: &Vec<InterfaceAddress>,
    graph_index: usize,
) -> (panel: Option<SeriesPanel>)
    requires
        tracker.wf(),
    ensures
        panel_shows(
            panel,
            chosen(tracker.names(), addresses@, graph_index as nat),
            tracker.samples(),
            tracker.sequence(),
        ),
{
    match choose_series(tracker, addresses, graph_index) {
        None => None,
        Some(position) => {
            let sample = tracker.sample_at(position);
            Some(
                SeriesPanel {
                    name: sample.name.clone(),
                    speed: sample.current_speed,
                    lane: sample.lane,
                    window: window(&sample.history, tracker.latest_sequence()),
                },
            )
        },
    }
}

/// The frame of the current state. Where there is nothing to show, a part is
/// empty: rendering never fails.
pub fn render(
    selection: &SelectionState,
    connection: &ConnectionState,
    tracker: &ThroughputTracker,
    addresses: &Vec<InterfaceAddress>,
    graph_index: usize,
) -> (frame: FrameDescription)
    requires
        selection.wf(),
        tracker.wf(),
    ensures
        depicts(
            frame,
            selection@,
            connection.active(),
            connection.ssid(),
            *tracker,
            addresses@,
            graph_index,
        ),
{
    let rows = list_rows(selection, connection);
    let highlighted = if rows.len() > 0 {
        Some(selection.cursor())
    } else {
        None
    };
    let secret_mask = if selection.in_secret_entry() {
        Some(selection.secret_len())
    } else {
        None
    };
    FrameDescription {
        list: selection.origin(),
        rows,
        highlighted,
        addresses: address_rows(addresses),
        graph: graph_panel(tracker, addresses, graph_index),
        secret_mask,
    }
}

} // verus!
