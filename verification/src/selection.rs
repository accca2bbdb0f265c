//! The selection state machine: two browse modes over lists of names, and
//! the entry of a secret for the name under the cursor.

use vstd::prelude::*;
use vstd::arithmetic::div_mod::{lemma_mod_add_multiples_vanish, lemma_mod_self_0, lemma_small_mod};
use crate::text::{has_name, names_of};

verus! {

/// Which list is browsed.
#[derive(Clone, Copy, PartialEq, Eq, Debug, Structural)]
pub enum BrowseMode {
    Vpn,
    Wifi,
}

/// One input to the state machine.
#[derive(Clone, Copy, PartialEq, Eq, Debug, Structural)]
pub enum InputEvent {
    ModeToggle,
    CursorDown,
    CursorUp,
    Confirm,
    Cancel,
    CharInput(char),
    Backspace,
    Disconnect,
    Refresh,
}

/// The mode of the state machine. A secret under entry carries the mode it
/// was entered from and the name it is for.
#[derive(Debug)]
pub enum Mode {
    BrowseVpn,
    BrowseWifi,
    SecretEntry { origin: BrowseMode, target: String, secret: Vec<char> },
}

/// What the front end is asked to do after an input.
#[derive(Debug)]
pub enum Action {
    /// Nothing.
    Nothing,
    /// Connect to `name`, of the list of `mode`, with `secret`.
    SubmitSecret { mode: BrowseMode, name: String, secret: Vec<char> },
    /// Take the tunnel of this name down.
    RequestDisconnect(String),
    /// Fetch both lists of names again.
    RefreshLists,
    /// Open the editor of connections.
    OpenEditor,
    /// Leave the dashboard.
    Quit,
}

pub enum ModeView {
    BrowseVpn,
    BrowseWifi,
    SecretEntry { origin: BrowseMode, target: Seq<char>, secret: Seq<char> },
}

pub enum ActionView {
    Nothing,
    SubmitSecret { mode: BrowseMode, name: Seq<char>, secret: Seq<char> },
    RequestDisconnect(Seq<char>),
    RefreshLists,
    OpenEditor,
    Quit,
}

/// The state of the machine as plain values.
pub struct SelectionView {
    pub vpn: Seq<Seq<char>>,
    pub wifi: Seq<Seq<char>>,
    pub mode: ModeView,
    pub cursor: nat,
}

impl View for Mode {
    type V = ModeView;

    open spec fn view(&self) -> ModeView {
        match self {
            Mode::BrowseVpn => ModeView::BrowseVpn,
            Mode::BrowseWifi => ModeView::BrowseWifi,
            Mode::SecretEntry { origin, target, secret } => ModeView::SecretEntry {
                origin: *origin,
                target: target@,
                secret: secret@,
            },
        }
    }
}

impl View for Action {
    type V = ActionView;

    open spec fn view(&self) -> ActionView {
        match self {
            Action::Nothing => ActionView::Nothing,
            Action::SubmitSecret { mode, name, secret } => ActionView::SubmitSecret {
                mode: *mode,
                name: name@,
                secret: secret@,
            },
            Action::RequestDisconnect(name) => ActionView::RequestDisconnect(name@),
            Action::RefreshLists => ActionView::RefreshLists,
            Action::OpenEditor => ActionView::OpenEditor,
            Action::Quit => ActionView::Quit,
        }
    }
}

/// The browse mode that is not `mode`.
pub open spec fn other(mode: BrowseMode) -> BrowseMode {
    match mode {
        BrowseMode::Vpn => BrowseMode::Wifi,
        BrowseMode::Wifi => BrowseMode::Vpn,
    }
}

/// Browsing the list of `mode`.
pub open spec fn browsing(mode: BrowseMode) -> ModeView {
    match mode {
        BrowseMode::Vpn => ModeView::BrowseVpn,
        BrowseMode::Wifi => ModeView::BrowseWifi,
    }
}

/// The browse mode that `mode` is, or was entered from.
pub open spec fn origin_of(mode: ModeView) -> BrowseMode {
    match mode {
        ModeView::BrowseVpn => BrowseMode::Vpn,
        ModeView::BrowseWifi => BrowseMode::Wifi,
        ModeView::SecretEntry { origin, .. } => origin,
    }
}

/// The list of a browse mode.
pub open spec fn list_of(s: SelectionView, mode: BrowseMode) -> Seq<Seq<char>> {
    match mode {
        BrowseMode::Vpn => s.vpn,
        BrowseMode::Wifi => s.wifi,
    }
}

/// The list that the cursor points into.
pub open spec fn current_list(s: SelectionView) -> Seq<Seq<char>> {
    list_of(s, origin_of(s.mode))
}

/// The cursor points into the current list, or is 0 where that list is empty.
pub open spec fn valid(s: SelectionView) -> bool {
    s.cursor < current_list(s).len() || s.cursor == 0
}

/// The state after an input, and what the front end is asked to do.
pub open spec fn step(s: SelectionView, event: InputEvent) -> (SelectionView, ActionView) {
    let list = current_list(s);
    match s.mode {
        ModeView::SecretEntry { origin, target, secret } => match event {
            InputEvent::Confirm => (
                SelectionView { mode: browsing(origin), ..s },
                if list.contains(target) {
                    ActionView::SubmitSecret { mode: origin, name: target, secret }
                } else {
                    ActionView::Nothing
                },
            ),
            InputEvent::Cancel => (SelectionView { mode: browsing(origin), ..s }, ActionView::Nothing),
            InputEvent::CharInput(c) => (
                SelectionView {
                    mode: ModeView::SecretEntry { origin, target, secret: secret.push(c) },
                    ..s
                },
                ActionView::Nothing,
            ),
            InputEvent::Backspace => (
                if secret.len() > 0 {
                    SelectionView {
                        mode: ModeView::SecretEntry { origin, target, secret: secret.drop_last() },
                        ..s
                    }
                } else {
                    s
                },
                ActionView::Nothing,
            ),
            _ => (s, ActionView::Nothing),
        },
        _ => match event {
            InputEvent::ModeToggle => (
                SelectionView { mode: browsing(other(origin_of(s.mode))), cursor: 0, ..s },
                ActionView::Nothing,
            ),
            InputEvent::CursorDown => (
                if list.len() == 0 {
                    s
                } else {
                    SelectionView { cursor: ((s.cursor + 1) as int % (list.len() as int)) as nat, ..s }
                },
                ActionView::Nothing,
            ),
            InputEvent::CursorUp => (
                if list.len() == 0 {
                    s
                } else {
                    SelectionView {
                        cursor: ((s.cursor - 1 + list.len()) % (list.len() as int)) as nat,
                        ..s
                    }
                },
                ActionView::Nothing,
            ),
            InputEvent::Confirm => (
                if list.len() == 0 {
                    s
                } else {
                    SelectionView {
                        mode: ModeView::SecretEntry {
                            origin: origin_of(s.mode),
                            target: list[s.cursor as int],
                            secret: Seq::empty(),
                        },
                        ..s
                    }
                },
                ActionView::Nothing,
            ),
            InputEvent::Disconnect => (
                s,
                if s.mode is BrowseVpn && list.len() > 0 {
                    ActionView::RequestDisconnect(list[s.cursor as int])
                } else {
                    ActionView::Nothing
                },
            ),
            InputEvent::Refresh => (s, ActionView::RefreshLists),
            _ => (s, ActionView::Nothing),
        },
    }
}

/// The state after new lists of names came in: the cursor stays where it
/// still points into the current list, and goes to 0 where it does not.
pub open spec fn with_lists(s: SelectionView, vpn: Seq<Seq<char>>, wifi: Seq<Seq<char>>) -> SelectionView {
    let lists = SelectionView { vpn, wifi, ..s };
    SelectionView { cursor: if s.cursor < current_list(lists).len() { s.cursor } else { 0 }, ..lists }
}

/// The state after a sequence of inputs.
pub open spec fn run(s: SelectionView, events: Seq<InputEvent>) -> SelectionView
    decreases events.len(),
{
    if events.len() == 0 {
        s
    } else {
        step(run(s, events.drop_last()), events.last()).0
    }
}

/// The state with another secret; the state itself outside secret entry.
pub open spec fn with_secret(s: SelectionView, secret: Seq<char>) -> SelectionView {
    match s.mode {
        ModeView::SecretEntry { origin, target, .. } => SelectionView {
            mode: ModeView::SecretEntry { origin, target, secret },
            ..s
        },
        _ => s,
    }
}

/// Every input leaves the cursor inside the current list.
pub proof fn lemma_step_keeps_valid(s: SelectionView, event: InputEvent)
    requires
        valid(s),
    ensures
        valid(step(s, event).0),
        step(s, event).0.vpn == s.vpn,
        step(s, event).0.wifi == s.wifi,
{
    let len = current_list(s).len() as int;
    if len > 0 {
        lemma_cursor_moves(s.cursor as int, len);
    }
}

/// One step down or up from a cursor inside a list of `len` names.
pub proof fn lemma_cursor_moves(cursor: int, len: int)
    requires
        0 <= cursor < len,
    ensures
        (cursor + 1) % len == (if cursor + 1 == len {
            0
        } else {
            cursor + 1
        }),
        (cursor - 1 + len) % len == (if cursor == 0 {
            len - 1
        } else {
            cursor - 1
        }),
{
    if cursor + 1 == len {
        lemma_mod_self_0(len);
    } else {
        lemma_small_mod((cursor + 1) as nat, len as nat);
    }
    if cursor == 0 {
        lemma_small_mod((len - 1) as nat, len as nat);
    } else {
        lemma_mod_add_multiples_vanish(cursor - 1, len);
        lemma_small_mod((cursor - 1) as nat, len as nat);
    }
}

/// The cursor goes round: down from the last name leads to the first, up
/// from the first to the last, one step down and one up lead back, and on an
/// empty list neither changes anything.
pub proof fn lemma_cursor_is_circular(s: SelectionView)
    requires
        valid(s),
        !(s.mode is SecretEntry),
    ensures
        current_list(s).len() == 0 ==> step(s, InputEvent::CursorDown).0 == s && step(
            s,
            InputEvent::CursorUp,
        ).0 == s,
        current_list(s).len() > 0 && s.cursor == current_list(s).len() - 1 ==> step(
            s,
            InputEvent::CursorDown,
        ).0.cursor == 0,
        current_list(s).len() > 0 && s.cursor == 0 ==> step(s, InputEvent::CursorUp).0.cursor
            == current_list(s).len() - 1,
        step(step(s, InputEvent::CursorDown).0, InputEvent::CursorUp).0 == s,
        step(step(s, InputEvent::CursorUp).0, InputEvent::CursorDown).0 == s,
        step(s, InputEvent::CursorDown).1 is Nothing,
        step(s, InputEvent::CursorUp).1 is Nothing,
{
    let len = current_list(s).len() as int;
    if len > 0 {
        lemma_cursor_moves(s.cursor as int, len);
        let down = step(s, InputEvent::CursorDown).0;
        let up = step(s, InputEvent::CursorUp).0;
        lemma_cursor_moves(down.cursor as int, len);
        lemma_cursor_moves(up.cursor as int, len);
    }
}

/// Cancelling the entry of a secret, whatever was typed, leads back to the
/// mode the entry was begun in, with the lists and the cursor as they were,
/// and asks nothing of the front end.
pub proof fn lemma_cancel_returns(s: SelectionView)
    requires
        s.mode is SecretEntry,
    ensures
        step(s, InputEvent::Cancel).0 == (SelectionView { mode: browsing(origin_of(s.mode)), ..s }),
        secret_of(step(s, InputEvent::Cancel).0) == Seq::<char>::empty(),
        step(s, InputEvent::Cancel).1 is Nothing,
{
}

/// Every input of the sequence types a character.
pub open spec fn all_typing(events: Seq<InputEvent>) -> bool {
    forall|i: int| 0 <= i < events.len() ==> #[trigger] events[i] is CharInput
}

/// The characters that a sequence of inputs types.
pub open spec fn text_of(events: Seq<InputEvent>) -> Seq<char> {
    Seq::new(
        events.len(),
        |i: int|
            match events[i] {
                InputEvent::CharInput(c) => c,
                _ => ' ',
            },
    )
}

/// `count` times the input that erases a character.
pub open spec fn erasing(count: nat) -> Seq<InputEvent> {
    Seq::new(count, |i: int| InputEvent::Backspace)
}

/// The secret of a state; empty outside secret entry.
pub open spec fn secret_of(s: SelectionView) -> Seq<char> {
    match s.mode {
        ModeView::SecretEntry { secret, .. } => secret,
        _ => Seq::empty(),
    }
}

/// Running one sequence of inputs after another is running both in a row.
pub proof fn lemma_run_in_parts(s: SelectionView, first: Seq<InputEvent>, then: Seq<InputEvent>)
    ensures
        run(s, first + then) == run(run(s, first), then),
    decreases then.len(),
{
    if then.len() == 0 {
        assert(first + then =~= first);
    } else {
        lemma_run_in_parts(s, first, then.drop_last());
        assert((first + then).drop_last() =~= first + then.drop_last());
        assert((first + then).last() == then.last());
    }
}

/// Typing appends to the secret and changes nothing else.
pub proof fn lemma_typing(s: SelectionView, typed: Seq<InputEvent>)
    requires
        s.mode is SecretEntry,
        all_typing(typed),
    ensures
        run(s, typed) == with_secret(s, secret_of(s) + text_of(typed)),
    decreases typed.len(),
{
    if typed.len() == 0 {
        assert(secret_of(s) + text_of(typed) =~= secret_of(s));
    } else {
        let front = typed.drop_last();
        lemma_typing(s, front);
        assert(typed.last() is CharInput);
        assert((secret_of(s) + text_of(front)).push(text_of(typed).last()) =~= secret_of(s)
            + text_of(typed));
    }
}

/// Erasing takes characters from the end of the secret, as many as there
/// are inputs, and changes nothing else.
pub proof fn lemma_erasing(s: SelectionView, count: nat)
    requires
        s.mode is SecretEntry,
        count <= secret_of(s).len(),
    ensures
        run(s, erasing(count)) == with_secret(s, secret_of(s).take(secret_of(s).len() - count)),
    decreases count,
{
    let secret = secret_of(s);
    if count == 0 {
        assert(secret.take(secret.len() as int) =~= secret);
    } else {
        lemma_erasing(s, (count - 1) as nat);
        assert(erasing(count).drop_last() =~= erasing((count - 1) as nat));
        assert(secret.take(secret.len() - count + 1).drop_last() =~= secret.take(
            secret.len() - count,
        ));
    }
}

/// Typing any characters and then erasing as many leaves the secret, and
/// the whole state, as it was: from an empty secret, an empty secret.
pub proof fn lemma_type_then_erase(s: SelectionView, typed: Seq<InputEvent>)
    requires
        s.mode is SecretEntry,
        all_typing(typed),
    ensures
        run(s, typed + erasing(typed.len())) == s,
        secret_of(s).len() == 0 ==> secret_of(run(s, typed + erasing(typed.len()))).len() == 0,
{
    lemma_run_in_parts(s, typed, erasing(typed.len()));
    lemma_typing(s, typed);
    let after = with_secret(s, secret_of(s) + text_of(typed));
    lemma_erasing(after, typed.len());
    assert((secret_of(s) + text_of(typed)).take(secret_of(s).len() as int) =~= secret_of(s));
}

/// Beginning the entry of a secret, typing anything and cancelling leads
/// back to the very state the entry was begun in; no secret is submitted on
/// the way, and the entry begins with an empty secret.
pub proof fn lemma_enter_type_cancel(s: SelectionView, typed: Seq<InputEvent>)
    requires
        valid(s),
        !(s.mode is SecretEntry),
        current_list(s).len() > 0,
        all_typing(typed),
    ensures
        step(s, InputEvent::Confirm).0.mode == (ModeView::SecretEntry {
            origin: origin_of(s.mode),
            target: current_list(s)[s.cursor as int],
            secret: Seq::empty(),
        }),
        step(s, InputEvent::Confirm).1 is Nothing,
        step(run(step(s, InputEvent::Confirm).0, typed), InputEvent::Cancel).0 == s,
        step(run(step(s, InputEvent::Confirm).0, typed), InputEvent::Cancel).1 is Nothing,
        forall|k: int|
            0 <= k < typed.len() ==> !(step(
                run(step(s, InputEvent::Confirm).0, typed.take(k)),
                #[trigger] typed[k],
            ).1 is SubmitSecret),
{
    let entered = step(s, InputEvent::Confirm).0;
    lemma_typing(entered, typed);
    assert forall|k: int| 0 <= k < typed.len() implies !(step(
        run(entered, typed.take(k)),
        #[trigger] typed[k],
    ).1 is SubmitSecret) by {
        lemma_typing(entered, typed.take(k));
    }
}

/// The selection state: both lists of names, the mode and the cursor.
pub struct SelectionState {
    vpn_names: Vec<String>,
    wifi_names: Vec<String>,
    mode: Mode,
    cursor: usize,
}

impl View for SelectionState {
    type V = SelectionView;

    closed spec fn view(&self) -> SelectionView {
        SelectionView {
            vpn: names_of(self.vpn_names@),
            wifi: names_of(self.wifi_names@),
            mode: self.mode@,
            cursor: self.cursor as nat,
        }
    }
}

impl SelectionState {
    /// The cursor points into the current list, or is 0 where it is empty.
    pub open spec fn wf(&self) -> bool {
        valid(self@)
    }

    /// The initial state: browsing the tunnels, the cursor on the first.
    pub fn new(vpn_names: Vec<String>, wifi_names: Vec<String>) -> (state: Self)
        ensures
            state.wf(),
            state@ == (SelectionView {
                vpn: names_of(vpn_names@),
                wifi: names_of(wifi_names@),
                mode: ModeView::BrowseVpn,
                cursor: 0,
            }),
    {
        SelectionState { vpn_names, wifi_names, mode: Mode::BrowseVpn, cursor: 0 }
    }

    /// The mode.
    pub fn mode(&self) -> (mode: &Mode)
        ensures
            mode@ == self@.mode,
    {
        &self.mode
    }

    /// The browse mode that the machine is in, or that the entry of the
    /// secret was begun in.
    pub fn origin(&self) -> (origin: BrowseMode)
        ensures
            origin == origin_of(self@.mode),
    {
        match &self.mode {
            Mode::BrowseVpn => BrowseMode::Vpn,
            Mode::BrowseWifi => BrowseMode::Wifi,
            Mode::SecretEntry { origin, .. } => *origin,
        }
    }

    /// Whether a secret is under entry.
    pub fn in_secret_entry(&self) -> (entering: bool)
        ensures
            entering == (self@.mode is SecretEntry),
    {
        match &self.mode {
            Mode::SecretEntry { .. } => true,
            _ => false,
        }
    }

    /// The length of the secret under entry; 0 if there is none.
    pub fn secret_len(&self) -> (len: usize)
        ensures
            len == secret_of(self@).len(),
    {
        match &self.mode {
            Mode::SecretEntry { secret, .. } => secret.len(),
            _ => 0,
        }
    }

    /// The cursor.
    pub fn cursor(&self) -> (cursor: usize)
        ensures
            cursor == self@.cursor,
    {
        self.cursor
    }

    /// The names of the tunnels.
    pub fn vpn_names(&self) -> (names: &Vec<String>)
        ensures
            names_of(names@) == self@.vpn,
    {
        &self.vpn_names
    }

    /// The names of the wireless networks.
    pub fn wifi_names(&self) -> (names: &Vec<String>)
        ensures
            names_of(names@) == self@.wifi,
    {
        &self.wifi_names
    }

    /// The list that the cursor points into.
    pub fn current_names(&self) -> (names: &Vec<String>)
        ensures
            names_of(names@) == current_list(self@),
    {
        match self.origin() {
            BrowseMode::Vpn => &self.vpn_names,
            BrowseMode::Wifi => &self.wifi_names,
        }
    }

    /// The name under the cursor, if the current list is not empty.
    pub fn selected(&self) -> (name: Option<&String>)
        requires
            self.wf(),
        ensures
            name is Some <==> current_list(self@).len() > 0,
            name is Some ==> name->0@ == current_list(self@)[self@.cursor as int],
    {
        let names = self.current_names();
        if names.len() > 0 {
            assert(names_of(names@)[self.cursor as int] == names@[self.cursor as int]@);
            Some(&names[self.cursor])
        } else {
            None
        }
    }

    /// Takes new lists of names. The cursor stays where it still points into
    /// the current list, and goes to 0 where it does not.
    pub fn set_lists(&mut self, vpn_names: Vec<String>, wifi_names: Vec<String>)
        ensures
            final(self).wf(),
            final(self)@ == with_lists(old(self)@, names_of(vpn_names@), names_of(wifi_names@)),
    {
        self.vpn_names = vpn_names;
        self.wifi_names = wifi_names;
        let len = self.current_names().len();
        if self.cursor >= len {
            self.cursor = 0;
        }
    }

    /// Takes one input: moves to the next state and says what the front end
    /// is asked to do.
    pub fn handle(&mut self, event: InputEvent) -> (action: Action)
        requires
            old(self).wf(),
        ensures
            final(self).wf(),
            final(self)@ == step(old(self)@, event).0,
            action@ == step(old(self)@, event).1,
    {
        proof {
            lemma_step_keeps_valid(self@, event);
            if current_list(self@).len() > 0 {
                lemma_cursor_moves(self.cursor as int, current_list(self@).len() as int);
            }
        }
        let mut mode = Mode::BrowseVpn;
        std::mem::swap(&mut self.mode, &mut mode);
        match mode {
            Mode::SecretEntry { origin, target, secret } => {
                let mut secret = secret;
                match event {
                    InputEvent::Confirm => {
                        let list = match origin {
                            BrowseMode::Vpn => &self.vpn_names,
                            BrowseMode::Wifi => &self.wifi_names,
                        };
                        let found = has_name(list, target.as_str());
                        self.mode = match origin {
                            BrowseMode::Vpn => Mode::BrowseVpn,
                            BrowseMode::Wifi => Mode::BrowseWifi,
                        };
                        if found {
                            Action::SubmitSecret { mode: origin, name: target, secret }
                        } else {
                            Action::Nothing
                        }
                    },
                    InputEvent::Cancel => {
                        self.mode = match origin {
                            BrowseMode::Vpn => Mode::BrowseVpn,
                            BrowseMode::Wifi => Mode::BrowseWifi,
                        };
                        Action::Nothing
                    },
                    InputEvent::CharInput(c) => {
                        secret.push(c);
                        self.mode = Mode::SecretEntry { origin, target, secret };
                        Action::Nothing
                    },
                    InputEvent::Backspace => {
                        if secret.len() > 0 {
                            secret.pop();
                        }
                        self.mode = Mode::SecretEntry { origin, target, secret };
                        Action::Nothing
                    },
                    _ => {
                        self.mode = Mode::SecretEntry { origin, target, secret };
                        Action::Nothing
                    },
                }
            },
            browse => {
                let origin = match browse {
                    Mode::BrowseWifi => BrowseMode::Wifi,
                    _ => BrowseMode::Vpn,
                };
                self.mode = browse;
                let len = match origin {
                    BrowseMode::Vpn => self.vpn_names.len(),
                    BrowseMode::Wifi => self.wifi_names.len(),
                };
                match event {
                    InputEvent::ModeToggle => {
                        self.mode = match origin {
                            BrowseMode::Vpn => Mode::BrowseWifi,
                            BrowseMode::Wifi => Mode::BrowseVpn,
                        };
                        self.cursor = 0;
                        Action::Nothing
                    },
                    InputEvent::CursorDown => {
                        if len > 0 {
                            self.cursor = if self.cursor + 1 == len {
                                0
                            } else {
                                self.cursor + 1
                            };
                        }
                        Action::Nothing
                    },
                    InputEvent::CursorUp => {
                        if len > 0 {
                            self.cursor = if self.cursor == 0 {
                                len - 1
                            } else {
                                self.cursor - 1
                            };
                        }
                        Action::Nothing
                    },
                    InputEvent::Confirm => {
                        if len > 0 {
                            let target = match origin {
                                BrowseMode::Vpn => self.vpn_names[self.cursor].clone(),
                                BrowseMode::Wifi => self.wifi_names[self.cursor].clone(),
                            };
                            self.mode = Mode::SecretEntry { origin, target, secret: Vec::new() };
                        }
                        Action::Nothing
                    },
                    InputEvent::Disconnect => {
                        match origin {
                            BrowseMode::Vpn => {
                                if len > 0 {
                                    Action::RequestDisconnect(self.vpn_names[self.cursor].clone())
                                } else {
                                    Action::Nothing
                                }
                            },
                            BrowseMode::Wifi => Action::Nothing,
                        }
                    },
                    InputEvent::Refresh => Action::RefreshLists,
                    _ => Action::Nothing,
                }
            },
        }
    }
}

} // verus!
