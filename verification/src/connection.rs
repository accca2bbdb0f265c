//! Which tunnels are up, and what changed since the last poll.

use vstd::prelude::*;
use crate::text::{has_name, names_of};

verus! {

/// A tunnel that came up or went down between two polls.
#[derive(Debug)]
pub enum ConnectionEvent {
    Connected(String),
    Disconnected(String),
}

/// What a `ConnectionEvent` says, with the tunnel's name as plain text.
pub enum Transition {
    Connected(Seq<char>),
    Disconnected(Seq<char>),
}

impl View for ConnectionEvent {
    type V = Transition;

    open spec fn view(&self) -> Transition {
        match self {
            ConnectionEvent::Connected(name) => Transition::Connected(name@),
            ConnectionEvent::Disconnected(name) => Transition::Disconnected(name@),
        }
    }
}

/// How urgent the notice of an event is.
#[derive(Clone, Copy, PartialEq, Eq, Debug, Structural)]
pub enum Urgency {
    Normal,
    Critical,
}

impl ConnectionEvent {
    /// A tunnel that went down is reported as critical, one that came up as
    /// normal.
    pub fn urgency(&self) -> (urgency: Urgency)
        ensures
            urgency == (if self@ is Disconnected {
                Urgency::Critical
            } else {
                Urgency::Normal
            }),
    {
        match self {
            ConnectionEvent::Connected(_) => Urgency::Normal,
            ConnectionEvent::Disconnected(_) => Urgency::Critical,
        }
    }
}

/// What a list of events says.
pub open spec fn transitions_of(events: Seq<ConnectionEvent>) -> Seq<Transition> {
    events.map_values(|e: ConnectionEvent| e@)
}

/// The names of `names` that `other` does not hold, in their order.
pub open spec fn absent_from(names: Seq<Seq<char>>, other: Seq<Seq<char>>) -> Seq<Seq<char>> {
    names.filter(|n: Seq<char>| !other.contains(n))
}

/// One transition for each name of `names` that `other` does not hold.
pub open spec fn changes(names: Seq<Seq<char>>, other: Seq<Seq<char>>, up: bool) -> Seq<
    Transition,
> {
    absent_from(names, other).map_values(
        |n: Seq<char>|
            if up {
                Transition::Connected(n)
            } else {
                Transition::Disconnected(n)
            },
    )
}

/// What changed between two polls: every tunnel that was active and is no
/// longer went down, then every tunnel that is active and was not came up.
pub open spec fn transitions(previous: Seq<Seq<char>>, active: Seq<Seq<char>>) -> Seq<Transition> {
    changes(previous, active, false) + changes(active, previous, true)
}

/// The names of a list, each kept where it first occurs.
pub open spec fn without_repeats(names: Seq<Seq<char>>) -> Seq<Seq<char>>
    decreases names.len(),
{
    if names.len() == 0 {
        names
    } else {
        let rest = without_repeats(names.drop_last());
        if rest.contains(names.last()) {
            rest
        } else {
            rest.push(names.last())
        }
    }
}

/// `without_repeats` keeps every name and keeps none twice.
pub proof fn lemma_without_repeats(names: Seq<Seq<char>>)
    ensures
        without_repeats(names).no_duplicates(),
        forall|n: Seq<char>| without_repeats(names).contains(n) <==> names.contains(n),
        names.no_duplicates() ==> without_repeats(names) == names,
    decreases names.len(),
{
    if names.len() > 0 {
        let front = names.drop_last();
        let rest = without_repeats(front);
        lemma_without_repeats(front);
        assert(names =~= front.push(names.last()));
        assert forall|n: Seq<char>| without_repeats(names).contains(n) <==> names.contains(
            n,
        ) by {
            if names.contains(n) {
                let i = names.index_of(n);
                if i < front.len() {
                    assert(front[i] == n);
                    assert(front.contains(n));
                    assert(rest.contains(n));
                    let k = rest.index_of(n);
                    assert(without_repeats(names)[k] == n);
                } else {
                    assert(n == names.last());
                    if !rest.contains(n) {
                        assert(without_repeats(names)[rest.len() as int] == n);
                    }
                }
            }
            if without_repeats(names).contains(n) {
                let k = without_repeats(names).index_of(n);
                if k < rest.len() {
                    assert(rest[k] == n);
                    assert(rest.contains(n));
                    assert(front.contains(n));
                    let i = front.index_of(n);
                    assert(names[i] == n);
                } else {
                    assert(names[names.len() - 1] == n);
                }
            }
        }
        if names.no_duplicates() {
            assert(front.no_duplicates());
            if rest.contains(names.last()) {
                let i = front.index_of(names.last());
                assert(names[i] == names[names.len() - 1]);
            }
        }
    }
}

/// The names that `absent_from` keeps, and that it keeps none twice.
pub proof fn lemma_absent_from(names: Seq<Seq<char>>, other: Seq<Seq<char>>)
    ensures
        forall|n: Seq<char>|
            absent_from(names, other).contains(n) <==> names.contains(n) && !other.contains(n),
        names.no_duplicates() ==> absent_from(names, other).no_duplicates(),
    decreases names.len(),
{
    let keep = |n: Seq<char>| !other.contains(n);
    if names.len() == 0 {
        reveal(Seq::filter);
        assert(absent_from(names, other) =~= names);
    } else {
        let front = names.drop_last();
        let last = names.last();
        lemma_absent_from(front, other);
        assert(names =~= front.push(last));
        front.lemma_filter_push(last, keep);
        let kept = absent_from(front, other);
        let all = absent_from(names, other);
        assert forall|n: Seq<char>| all.contains(n) <==> names.contains(n) && !other.contains(
            n,
        ) by {
            if all.contains(n) {
                let k = all.index_of(n);
                if k < kept.len() {
                    assert(kept[k] == n);
                    assert(kept.contains(n));
                    let i = front.index_of(n);
                    assert(names[i] == n);
                } else {
                    assert(names[names.len() - 1] == n);
                }
            }
            if names.contains(n) && !other.contains(n) {
                let i = names.index_of(n);
                if i < front.len() {
                    assert(front[i] == n);
                    assert(front.contains(n));
                    let k = kept.index_of(n);
                    assert(all[k] == n);
                } else {
                    assert(all[kept.len() as int] == n);
                }
            }
        }
        if names.no_duplicates() {
            assert(front.no_duplicates());
            if kept.contains(last) {
                let i = front.index_of(last);
                assert(names[i] == names[names.len() - 1]);
            }
        }
    }
}

/// Between two polls each tunnel changes at most once: a tunnel that went
/// down has exactly one `Disconnected`, a tunnel that came up exactly one
/// `Connected`, a tunnel that stayed as it was has none, and every
/// `Disconnected` stands before every `Connected`.
pub proof fn lemma_transitions_once(previous: Seq<Seq<char>>, active: Seq<Seq<char>>)
    requires
        previous.no_duplicates(),
        active.no_duplicates(),
    ensures
        transitions(previous, active).no_duplicates(),
        forall|n: Seq<char>|
            transitions(previous, active).contains(Transition::Disconnected(n)) <==> previous.contains(
                n,
            ) && !active.contains(n),
        forall|n: Seq<char>|
            transitions(previous, active).contains(Transition::Connected(n)) <==> active.contains(n)
                && !previous.contains(n),
        forall|i: int, j: int|
            0 <= i < transitions(previous, active).len() && 0 <= j < transitions(
                previous,
                active,
            ).len() && transitions(previous, active)[i] is Disconnected && transitions(
                previous,
                active,
            )[j] is Connected ==> i < j,
{
    lemma_absent_from(previous, active);
    lemma_absent_from(active, previous);
    let down = absent_from(previous, active);
    let up = absent_from(active, previous);
    let all = transitions(previous, active);
    assert(all.len() == down.len() + up.len());
    assert forall|k: int| 0 <= k < all.len() implies #[trigger] all[k] == (if k < down.len() {
        Transition::Disconnected(down[k])
    } else {
        Transition::Connected(up[k - down.len()])
    }) by {}
    assert forall|n: Seq<char>|
        all.contains(Transition::Disconnected(n)) <==> previous.contains(n) && !active.contains(
            n,
        ) by {
        if all.contains(Transition::Disconnected(n)) {
            let k = all.index_of(Transition::Disconnected(n));
            assert(down[k] == n);
            assert(down.contains(n));
        }
        if previous.contains(n) && !active.contains(n) {
            let k = down.index_of(n);
            assert(all[k] == Transition::Disconnected(n));
        }
    }
    assert forall|n: Seq<char>|
        all.contains(Transition::Connected(n)) <==> active.contains(n) && !previous.contains(
            n,
        ) by {
        if all.contains(Transition::Connected(n)) {
            let k = all.index_of(Transition::Connected(n));
            assert(up[k - down.len()] == n);
            assert(up.contains(n));
        }
        if active.contains(n) && !previous.contains(n) {
            let k = up.index_of(n);
            assert(all[k + down.len()] == Transition::Connected(n));
        }
    }
}

/// While the set of active tunnels stays as it is, nothing is reported.
pub proof fn lemma_steady_state_is_silent(active: Seq<Seq<char>>)
    ensures
        transitions(active, active) == Seq::<Transition>::empty(),
{
    lemma_absent_from(active, active);
    let none = absent_from(active, active);
    if none.len() > 0 {
        assert(none.contains(none[0]));
    }
    assert(transitions(active, active) =~= Seq::<Transition>::empty());
}

/// The names of `list`, each kept where it first occurs.
pub fn distinct(list: Vec<String>) -> (kept: Vec<String>)
    ensures
        names_of(kept@) == without_repeats(names_of(list@)),
        names_of(kept@).no_duplicates(),
{
    let mut kept: Vec<String> = Vec::new();
    let mut i: usize = 0;
    assert(names_of(list@).take(0) =~= Seq::<Seq<char>>::empty());
    assert(names_of(kept@) =~= Seq::<Seq<char>>::empty());
    while i < list.len()
        invariant
            i <= list.len(),
            names_of(kept@) == without_repeats(names_of(list@).take(i as int)),
        decreases list.len() - i,
    {
        let ghost seen = names_of(list@).take(i as int);
        let ghost before = names_of(kept@);
        assert(names_of(list@).take(i + 1).drop_last() =~= seen);
        assert(names_of(list@).take(i + 1).last() == list@[i as int]@);
        if !has_name(&kept, list[i].as_str()) {
            kept.push(list[i].clone());
            assert(names_of(kept@) =~= before.push(list@[i as int]@));
        }
        i += 1;
    }
    proof {
        assert(names_of(list@).take(i as int) =~= names_of(list@));
        lemma_without_repeats(names_of(list@));
    }
    kept
}

/// Appends to `events` one event for each name of `names` that `other` does
/// not hold.
fn push_changes(
    events: &mut Vec<ConnectionEvent>,
    names: &Vec<String>,
    other: &Vec<String>,
    up: bool,
)
    ensures
        transitions_of(final(events)@) == transitions_of(old(events)@) + changes(
            names_of(names@),
            names_of(other@),
            up,
        ),
{
    let ghost start = transitions_of(events@);
    let ghost all = names_of(names@);
    let ghost others = names_of(other@);
    let ghost keep = |n: Seq<char>| !others.contains(n);
    let mut i: usize = 0;
    proof {
        reveal(Seq::filter);
        assert(all.take(0) =~= Seq::<Seq<char>>::empty());
        assert(transitions_of(events@) =~= start + changes(all.take(0), others, up));
    }
    while i < names.len()
        invariant
            i <= names.len(),
            all == names_of(names@),
            others == names_of(other@),
            keep == |n: Seq<char>| !others.contains(n),
            transitions_of(events@) == start + changes(all.take(i as int), others, up),
        decreases names.len() - i,
    {
        let ghost before = transitions_of(events@);
        proof {
            assert(all.take(i + 1) =~= all.take(i as int).push(all[i as int]));
            all.take(i as int).lemma_filter_push(all[i as int], keep);
        }
        if !has_name(other, names[i].as_str()) {
            let name = names[i].clone();
            let event = if up {
                ConnectionEvent::Connected(name)
            } else {
                ConnectionEvent::Disconnected(name)
            };
            events.push(event);
            proof {
                assert(transitions_of(events@) =~= before.push(event@));
                assert(changes(all.take(i + 1), others, up) =~= changes(
                    all.take(i as int),
                    others,
                    up,
                ).push(event@));
            }
        } else {
            assert(changes(all.take(i + 1), others, up) =~= changes(all.take(i as int), others, up));
        }
        i += 1;
    }
    assert(all.take(i as int) =~= all);
}

/// The connection state between polls.
pub struct ConnectionState {
    active_tunnels: Vec<String>,
    previous_active_tunnels: Vec<String>,
    active_ssid: String,
}

impl ConnectionState {
    /// The tunnels that the last poll found active.
    pub closed spec fn active(&self) -> Seq<Seq<char>> {
        names_of(self.active_tunnels@)
    }

    /// The tunnels that the poll before the last found active.
    pub closed spec fn previous(&self) -> Seq<Seq<char>> {
        names_of(self.previous_active_tunnels@)
    }

    /// The network that the last poll found associated; empty if none.
    pub closed spec fn ssid(&self) -> Seq<char> {
        self.active_ssid@
    }

    /// No tunnel is listed twice.
    pub closed spec fn wf(&self) -> bool {
        self.active().no_duplicates() && self.previous().no_duplicates()
    }

    /// No tunnel is listed twice, at any time.
    pub proof fn lemma_invariant(&self)
        requires
            self.wf(),
        ensures
            self.active().no_duplicates(),
            self.previous().no_duplicates(),
    {
    }

    /// The state before the first poll: nothing active.
    pub fn new() -> (state: Self)
        ensures
            state.wf(),
            state.active() == Seq::<Seq<char>>::empty(),
            state.previous() == Seq::<Seq<char>>::empty(),
            state.ssid() == Seq::<char>::empty(),
    {
        let state = ConnectionState {
            active_tunnels: Vec::new(),
            previous_active_tunnels: Vec::new(),
            active_ssid: String::new(),
        };
        assert(state.active() =~= Seq::<Seq<char>>::empty());
        assert(state.previous() =~= Seq::<Seq<char>>::empty());
        state
    }

    /// Takes what a poll found: the active tunnels as reported, and the
    /// associated network if there is one. Returns what changed since the
    /// last poll, the tunnels that went down first. A change of network is
    /// not reported.
    pub fn poll(&mut self, reported: Vec<String>, ssid: Option<String>) -> (events: Vec<
        ConnectionEvent,
    >)
        requires
            old(self).wf(),
        ensures
            final(self).wf(),
            final(self).previous() == old(self).active(),
            final(self).active() == without_repeats(names_of(reported@)),
            final(self).ssid() == (match ssid {
                Some(name) => name@,
                None => Seq::<char>::empty(),
            }),
            transitions_of(events@) == transitions(old(self).active(), final(self).active()),
    {
        let mut active = distinct(reported);
        let mut events: Vec<ConnectionEvent> = Vec::new();
        assert(transitions_of(events@) =~= Seq::<Transition>::empty());
        push_changes(&mut events, &self.active_tunnels, &active, false);
        push_changes(&mut events, &active, &self.active_tunnels, true);
        assert(transitions_of(events@) =~= transitions(
            names_of(self.active_tunnels@),
            names_of(active@),
        ));
        std::mem::swap(&mut self.active_tunnels, &mut active);
        self.previous_active_tunnels = active;
        self.active_ssid = match ssid {
            Some(name) => name,
            None => String::new(),
        };
        events
    }

    /// Whether the last poll found the tunnel active.
    pub fn is_active(&self, name: &str) -> (active: bool)
        ensures
            active == self.active().contains(name@),
    {
        has_name(&self.active_tunnels, name)
    }

    /// The tunnels that the last poll found active.
    pub fn active_tunnels(&self) -> (tunnels: &Vec<String>)
        ensures
            names_of(tunnels@) == self.active(),
    {
        &self.active_tunnels
    }

    /// The network that the last poll found associated; empty if none.
    pub fn active_ssid(&self) -> (ssid: &String)
        ensures
            ssid@ == self.ssid(),
    {
        &self.active_ssid
    }
}

} // verus!
