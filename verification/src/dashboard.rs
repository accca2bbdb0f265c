//! The dashboard's state in one place: the selection, the connections, the
//! throughput and the turn of the graph. The front end owns one `Dashboard`,
//! feeds it ticks and key presses, and draws what `render` describes.

use vstd::prelude::*;
use crate::connection::{
    transitions, transitions_of, without_repeats, ConnectionEvent, ConnectionState,
};
use crate::frame::{depicts, render, FrameDescription};
use crate::graph::InterfaceAddress;
use crate::keys::{binding, interpret, Command, Key};
use crate::selection::{
    step, with_lists, Action, ActionView, ModeView, SelectionState, SelectionView,
};
use crate::text::names_of;
use crate::net_monitor::CounterSnapshot;
use crate::throughput::{InterfaceSample, ThroughputTracker};

verus! {

pub struct Dashboard {
    pub selection: SelectionState,
    pub connection: ConnectionState,
    pub tracker: ThroughputTracker,
    /// Counts the requests for the next graph; see `graph::chosen`.
    pub graph_index: usize,
}

/// The turn of the graph after the next one was asked for.
pub open spec fn next_graph(graph_index: usize) -> usize {
    if graph_index == usize::MAX {
        0
    } else {
        (graph_index + 1) as usize
    }
}

/// The selection and the turn of the graph after a key press, and what the
/// front end is asked to do.
pub open spec fn pressed(selection: SelectionView, graph_index: usize, key: Key) -> (
    SelectionView,
    usize,
    ActionView,
) {
    match binding(key, selection.mode is SecretEntry) {
        Command::Input(event) => (
            step(selection, event).0,
            graph_index,
            step(selection, event).1,
        ),
        Command::NextGraph => (selection, next_graph(graph_index), ActionView::Nothing),
        Command::OpenEditor => (selection, graph_index, ActionView::OpenEditor),
        Command::Quit => (selection, graph_index, ActionView::Quit),
        Command::Ignored => (selection, graph_index, ActionView::Nothing),
    }
}

impl Dashboard {
    /// Every part is well formed.
    pub open spec fn wf(&self) -> bool {
        self.selection.wf() && self.connection.wf() && self.tracker.wf()
    }

    /// The dashboard at its start: browsing the tunnels with the cursor on
    /// the first, nothing known to be active, nothing tracked, and
    /// `baseline` to measure the first tick against.
    pub fn new(vpn_names: Vec<String>, wifi_names: Vec<String>, baseline: CounterSnapshot) -> (dashboard: Self)
        requires
            baseline.wf(),
        ensures
            dashboard.wf(),
            dashboard.selection@ == (SelectionView {
                vpn: names_of(vpn_names@),
                wifi: names_of(wifi_names@),
                mode: ModeView::BrowseVpn,
                cursor: 0,
            }),
            dashboard.connection.active() == Seq::<Seq<char>>::empty(),
            dashboard.connection.previous() == Seq::<Seq<char>>::empty(),
            dashboard.connection.ssid() == Seq::<char>::empty(),
            dashboard.tracker.samples() == Map::<Seq<char>, InterfaceSample>::empty(),
            dashboard.tracker.baseline() == baseline@,
            dashboard.tracker.sequence() == 0,
            dashboard.graph_index == 0,
    {
        Dashboard {
            selection: SelectionState::new(vpn_names, wifi_names),
            connection: ConnectionState::new(),
            tracker: ThroughputTracker::new(baseline),
            graph_index: 0,
        }
    }

    /// One tick: takes what the connection manager reports and the snapshot
    /// of the counters, and returns the tunnels that came up or went down.
    pub fn tick(
        &mut self,
        reported: Vec<String>,
        ssid: Option<String>,
        snapshot: CounterSnapshot,
    ) -> (events: Vec<ConnectionEvent>)
        requires
            old(self).wf(),
            snapshot.wf(),
        ensures
            final(self).wf(),
            final(self).selection == old(self).selection,
            final(self).graph_index == old(self).graph_index,
            final(self).connection.previous() == old(self).connection.active(),
            final(self).connection.active() == without_repeats(names_of(reported@)),
            final(self).connection.ssid() == (match ssid {
                Some(name) => name@,
                None => Seq::<char>::empty(),
            }),
            transitions_of(events@) == transitions(
                old(self).connection.active(),
                final(self).connection.active(),
            ),
            final(self).tracker.follows(old(self).tracker, snapshot@),
    {
        let events = self.connection.poll(reported, ssid);
        self.tracker.update(snapshot);
        events
    }

    /// Takes new lists of names, after `Action::RefreshLists`.
    pub fn refresh(&mut self, vpn_names: Vec<String>, wifi_names: Vec<String>)
        requires
            old(self).wf(),
        ensures
            final(self).wf(),
            final(self).selection@ == with_lists(
                old(self).selection@,
                names_of(vpn_names@),
                names_of(wifi_names@),
            ),
            final(self).connection == old(self).connection,
            final(self).tracker == old(self).tracker,
            final(self).graph_index == old(self).graph_index,
    {
        self.selection.set_lists(vpn_names, wifi_names);
    }

    /// One key press: moves the selection or the turn of the graph, and says
    /// what the front end is asked to do.
    pub fn press(&mut self, key: Key) -> (action: Action)
        requires
            old(self).wf(),
        ensures
            final(self).wf(),
            (final(self).selection@, final(self).graph_index, action@) == pressed(
                old(self).selection@,
                old(self).graph_index,
                key,
            ),
            final(self).connection == old(self).connection,
            final(self).tracker == old(self).tracker,
    {
        match interpret(key, self.selection.in_secret_entry()) {
            Command::Input(event) => self.selection.handle(event),
            Command::NextGraph => {
                self.graph_index = if self.graph_index == usize::MAX {
                    0
                } else {
                    self.graph_index + 1
                };
                Action::Nothing
            },
            Command::OpenEditor => Action::OpenEditor,
            Command::Quit => Action::Quit,
            Command::Ignored => Action::Nothing,
        }
    }

    /// The frame of the current state, with the addresses that the
    /// interfaces have now.
    pub fn render(&self, addresses: &Vec<InterfaceAddress>) -> (frame: FrameDescription)
        requires
            self.wf(),
        ensures
            depicts(
                frame,
                self.selection@,
                self.connection.active(),
                self.connection.ssid(),
                self.tracker,
                addresses@,
                self.graph_index,
            ),
    {
        render(&self.selection, &self.connection, &self.tracker, addresses, self.graph_index)
    }
}

} // verus!
