//! The front-end's state: which list is shown, whether it is visible, the
//! ranked items, the selection and the query being typed. The front-end
//! performs what these transitions return (focus a window, launch an entry,
//! refresh the list).

use vstd::prelude::*;
use crate::entry::{Entry, EntryView};
use crate::hotkey::ShortcutAction;
use crate::index::entries_view;

verus! {

/// Which candidates the list shows.
#[derive(Debug, Clone, Copy, PartialEq, Eq, Structural)]
pub enum ListType {
    /// Installed applications.
    Launcher,
    /// Running windows.
    Switcher,
}

/// How a row of the list is drawn.
#[derive(Debug, Clone, Copy, PartialEq, Eq, Structural)]
pub enum Styles {
    TransparentDark,
    Transparent,
    Highlighted,
}

impl Styles {
    /// The style of row `idx` when row `selected` is selected.
    pub fn for_row(selected: usize, idx: usize) -> (r: Styles)
        ensures
            r == (if selected == idx {
                Styles::Highlighted
            } else {
                Styles::Transparent
            }),
    {
        if selected == idx {
            Styles::Highlighted
        } else {
            Styles::Transparent
        }
    }
}

/// Errors of icon resolution.
#[derive(Debug, Clone, Copy, PartialEq, Eq, Hash, Structural)]
pub enum LauncherError {
    ResolveIconThemeError,
}

impl LauncherError {
    /// A description of the error.
    pub fn message(&self) -> (r: &'static str)
        ensures
            r@ == "Unable to resolve icon theme"@,
    {
        match self {
            LauncherError::ResolveIconThemeError => "Unable to resolve icon theme",
        }
    }
}

/// An edit of the query.
#[derive(Debug, Clone, Copy, PartialEq, Eq, Structural)]
pub enum SearchMessage {
    Append(char),
}

/// An input to the front-end's state.
#[derive(Debug, Clone, Copy, PartialEq, Eq, Structural)]
pub enum Message {
    MoveSelectedUp,
    MoveSelectedDown,
    ResetSelected,
    Search(SearchMessage),
    Launch,
}

pub struct LauncherView {
    pub visible: bool,
    pub focus: bool,
    pub list_type: ListType,
    pub selected: nat,
    pub items: Seq<EntryView>,
    pub query: Seq<char>,
}

/// The query after typing `c`: backspace removes the last character, a
/// printable ASCII character is appended, anything else is ignored.
pub open spec fn edited(query: Seq<char>, c: char) -> Seq<char> {
    if c as u32 == 8 {
        if query.len() > 0 {
            query.drop_last()
        } else {
            query
        }
    } else if 0x20 <= c as u32 <= 0x7e {
        query.push(c)
    } else {
        query
    }
}

/// The state after moving the selection one row up, wrapping to the last
/// row; unchanged on an empty list.
pub open spec fn moved_up(v: LauncherView) -> LauncherView {
    let n = v.items.len();
    if n == 0 {
        v
    } else {
        LauncherView { selected: ((v.selected as int + n - 1) % (n as int)) as nat, ..v }
    }
}

/// The state after moving the selection one row down, wrapping to the first
/// row; unchanged on an empty list.
pub open spec fn moved_down(v: LauncherView) -> LauncherView {
    let n = v.items.len();
    if n == 0 {
        v
    } else {
        LauncherView { selected: ((v.selected as int + 1) % (n as int)) as nat, ..v }
    }
}

/// The front-end's state.
pub struct LauncherState {
    visible: bool,
    focus: bool,
    list_type: ListType,
    selected: usize,
    items: Vec<Entry>,
    query: Vec<char>,
}

impl View for LauncherState {
    type V = LauncherView;

    closed spec fn view(&self) -> LauncherView {
        LauncherView {
            visible: self.visible,
            focus: self.focus,
            list_type: self.list_type,
            selected: self.selected as nat,
            items: entries_view(self.items@),
            query: self.query@,
        }
    }
}

/// The focus command of an entry, as [`Entry::try_select`] gives it.
pub open spec fn select_of(e: EntryView) -> Option<Seq<char>> {
    if e.select.len() == 0 {
        None
    } else {
        Some(e.select)
    }
}

pub open spec fn command_view(c: Option<String>) -> Option<Seq<char>> {
    match c {
        Some(s) => Some(s@),
        None => None,
    }
}

impl LauncherState {
    #[verifier::type_invariant]
    spec fn selection_in_range(self) -> bool {
        &&& self.items.len() <= 9
        &&& self.items.len() == 0 ==> self.selected == 0
        &&& self.items.len() > 0 ==> self.selected < self.items.len()
    }

    /// Hidden, focused, showing the launcher list, with nothing listed.
    pub fn new() -> (r: LauncherState)
        ensures
            !r@.visible,
            r@.focus,
            r@.list_type == ListType::Launcher,
            r@.selected == 0,
            r@.items.len() == 0,
            r@.query.len() == 0,
    {
        LauncherState {
            visible: false,
            focus: true,
            list_type: ListType::Launcher,
            selected: 0,
            items: Vec::new(),
            query: Vec::new(),
        }
    }

    pub fn is_visible(&self) -> (r: bool)
        ensures
            r == self@.visible,
    {
        self.visible
    }

    pub fn list_type(&self) -> (r: ListType)
        ensures
            r == self@.list_type,
    {
        self.list_type
    }

    pub fn selected(&self) -> (r: usize)
        ensures
            r == self@.selected,
    {
        self.selected
    }

    pub fn item_count(&self) -> (r: usize)
        ensures
            r == self@.items.len(),
            r <= 9,
    {
        proof {
            use_type_invariant(self);
        }
        self.items.len()
    }

    /// The listed entry at `idx`.
    pub fn item(&self, idx: usize) -> (r: Entry)
        requires
            idx < self@.items.len(),
        ensures
            r@ == self@.items[idx as int],
    {
        self.items[idx].duplicate()
    }

    /// The query typed so far.
    pub fn query(&self) -> (r: String)
        ensures
            r@ == self@.query,
    {
        crate::text::string_of(&self.query)
    }

    /// Applies a shortcut's action, and says whether the list must be
    /// refreshed against an empty query. Toggling switches to the launcher
    /// list and flips visibility; showing the switcher does nothing while
    /// something is visible; hiding the switcher hides it.
    pub fn on_shortcut(&mut self, action: ShortcutAction) -> (refresh: bool)
        ensures
            action == ShortcutAction::ToggleLauncher ==> final(self)@ == (LauncherView {
                visible: !old(self)@.visible,
                focus: true,
                list_type: ListType::Launcher,
                query: seq![],
                ..old(self)@
            }) && refresh,
            action == ShortcutAction::ShowSwitcher && old(self)@.visible ==> final(self)@ == old(
                self,
            )@ && !refresh,
            action == ShortcutAction::ShowSwitcher && !old(self)@.visible ==> final(self)@ == (
            LauncherView {
                visible: true,
                focus: true,
                list_type: ListType::Switcher,
                query: seq![],
                ..old(self)@
            }) && refresh,
            action == ShortcutAction::HideSwitcher ==> final(self)@ == (LauncherView {
                visible: false,
                list_type: ListType::Switcher,
                ..old(self)@
            }) && !refresh,
    {
        proof {
            use_type_invariant(&*self);
        }
        match action {
            ShortcutAction::ToggleLauncher => {
                self.list_type = ListType::Launcher;
                self.visible = !self.visible;
                self.focus = true;
                self.query = Vec::new();
                true
            },
            ShortcutAction::ShowSwitcher => {
                if self.visible {
                    return false;
                }
                self.list_type = ListType::Switcher;
                self.visible = true;
                self.focus = true;
                self.query = Vec::new();
                true
            },
            ShortcutAction::HideSwitcher => {
                self.list_type = ListType::Switcher;
                self.visible = false;
                false
            },
        }
    }

    /// Selects row `idx` and returns its focus command, if it has one.
    fn select(&mut self, idx: usize) -> (r: Option<String>)
        requires
            idx < old(self)@.items.len(),
        ensures
            final(self)@ == (LauncherView { selected: idx as nat, ..old(self)@ }),
            command_view(r) == select_of(old(self)@.items[idx as int]),
    {
        proof {
            use_type_invariant(&*self);
        }
        self.selected = idx;
        self.items[idx].try_select()
    }

    /// Lists the first nine entries of `list` (a ranking) and selects the
    /// first; returns its focus command, if any.
    pub fn set_items(&mut self, list: Vec<Entry>) -> (r: Option<String>)
        ensures
            final(self)@.items == entries_view(list@).take(
                if list@.len() < 9 {
                    list@.len() as int
                } else {
                    9
                },
            ),
            final(self)@.selected == 0,
            final(self)@.visible == old(self)@.visible,
            final(self)@.focus == old(self)@.focus,
            final(self)@.list_type == old(self)@.list_type,
            final(self)@.query == old(self)@.query,
            list@.len() == 0 ==> r is None,
            list@.len() > 0 ==> command_view(r) == select_of(list@[0]@),
    {
        proof {
            use_type_invariant(&*self);
        }
        let n: usize = if list.len() < 9 {
            list.len()
        } else {
            9
        };
        let mut items: Vec<Entry> = Vec::new();
        let mut i: usize = 0;
        while i < n
            invariant
                i <= n <= list.len(),
                n <= 9,
                entries_view(items@) == entries_view(list@).take(i as int),
            decreases n - i,
        {
            let ghost before = entries_view(items@);
            let e = list[i].duplicate();
            items.push(e);
            assert(entries_view(items@) =~= before.push(e@));
            assert(entries_view(items@) =~= entries_view(list@).take(i + 1));
            i = i + 1;
        }
        self.selected = 0;
        self.items = items;
        if n == 0 {
            None
        } else {
            self.select(0)
        }
    }

    /// Moves the selection one row up, wrapping to the last row; returns the
    /// newly selected row's focus command. Nothing happens on an empty list.
    pub fn up(&mut self) -> (r: Option<String>)
        ensures
            final(self)@ == moved_up(old(self)@),
            old(self)@.items.len() == 0 ==> r is None,
            old(self)@.items.len() > 0 ==> command_view(r) == select_of(
                old(self)@.items[final(self)@.selected as int],
            ),
    {
        proof {
            use_type_invariant(&*self);
        }
        let n = self.items.len();
        if n == 0 {
            return None;
        }
        let s = if self.selected == 0 {
            n - 1
        } else {
            self.selected - 1
        };
        assert(s == (self.selected + n - 1) % (n as int)) by (nonlinear_arith)
            requires
                n > 0,
                self.selected < n,
                s == (if self.selected == 0 {
                    n - 1
                } else {
                    self.selected - 1
                }),
        ;
        self.select(s)
    }

    /// Moves the selection one row down, wrapping to the first row; returns
    /// the newly selected row's focus command. Nothing happens on an empty
    /// list.
    pub fn down(&mut self) -> (r: Option<String>)
        ensures
            final(self)@ == moved_down(old(self)@),
            old(self)@.items.len() == 0 ==> r is None,
            old(self)@.items.len() > 0 ==> command_view(r) == select_of(
                old(self)@.items[final(self)@.selected as int],
            ),
    {
        proof {
            use_type_invariant(&*self);
        }
        let n = self.items.len();
        if n == 0 {
            return None;
        }
        let s = if self.selected + 1 == n {
            0
        } else {
            self.selected + 1
        };
        assert(s == (self.selected + 1) % (n as int)) by (nonlinear_arith)
            requires
                n > 0,
                self.selected < n,
                s == (if self.selected + 1 == n {
                    0
                } else {
                    self.selected + 1
                }),
        ;
        self.select(s)
    }

    /// Hides the list.
    pub fn dismiss(&mut self)
        ensures
            final(self)@ == (LauncherView { visible: false, ..old(self)@ }),
    {
        proof {
            use_type_invariant(&*self);
        }
        self.visible = false;
    }

    /// Hides the list when it is the launcher's; a switcher stays.
    pub fn dismiss_if_launcher(&mut self)
        ensures
            old(self)@.list_type == ListType::Launcher ==> final(self)@ == (LauncherView {
                visible: false,
                ..old(self)@
            }),
            old(self)@.list_type == ListType::Switcher ==> final(self)@ == old(self)@,
    {
        proof {
            use_type_invariant(&*self);
        }
        if self.list_type == ListType::Launcher {
            self.dismiss();
        }
    }

    /// Shows the list and selects its first row; returns that row's focus
    /// command, if any.
    pub fn show(&mut self) -> (r: Option<String>)
        ensures
            final(self)@ == (LauncherView { visible: true, selected: 0, ..old(self)@ }),
            old(self)@.items.len() == 0 ==> r is None,
            old(self)@.items.len() > 0 ==> command_view(r) == select_of(old(self)@.items[0]),
    {
        proof {
            use_type_invariant(&*self);
        }
        self.visible = true;
        if self.items.len() == 0 {
            None
        } else {
            self.select(0)
        }
    }

    /// Takes the selected entry for launching and hides the list; nothing
    /// happens on an empty list. Whether the entry can be launched is for
    /// [`Entry::try_exec`] to say.
    pub fn launch(&mut self) -> (r: Option<Entry>)
        ensures
            old(self)@.items.len() == 0 ==> final(self)@ == old(self)@ && r is None,
            old(self)@.items.len() > 0 ==> final(self)@ == (LauncherView {
                visible: false,
                ..old(self)@
            }) && (r matches Some(e) && e@ == old(self)@.items[old(self)@.selected as int]),
    {
        proof {
            use_type_invariant(&*self);
        }
        if self.items.len() == 0 {
            return None;
        }
        let e = self.items[self.selected].duplicate();
        self.dismiss();
        Some(e)
    }

    /// Applies a message from the front-end: moves or resets the selection,
    /// edits the query (see [`edited`]), or takes the selected entry for
    /// launching, which is returned.
    pub fn update(&mut self, msg: Message) -> (r: Option<Entry>)
        ensures
            msg == Message::ResetSelected ==> final(self)@ == (LauncherView {
                selected: 0,
                ..old(self)@
            }) && r is None,
            msg matches Message::Search(SearchMessage::Append(c)) ==> final(self)@ == (
            LauncherView { query: edited(old(self)@.query, c), ..old(self)@ }) && r is None,
            msg == Message::MoveSelectedUp ==> final(self)@ == moved_up(old(self)@) && r is None,
            msg == Message::MoveSelectedDown ==> final(self)@ == moved_down(old(self)@) && r is None,
            msg == Message::Launch ==> (old(self)@.items.len() == 0 ==> final(self)@ == old(self)@
                && r is None) && (old(self)@.items.len() > 0 ==> final(self)@ == (LauncherView {
                visible: false,
                ..old(self)@
            }) && (r matches Some(e) && e@ == old(self)@.items[old(self)@.selected as int])),
    {
        proof {
            use_type_invariant(&*self);
        }
        match msg {
            Message::MoveSelectedUp => {
                self.up();
                None
            },
            Message::MoveSelectedDown => {
                self.down();
                None
            },
            Message::ResetSelected => {
                self.selected = 0;
                None
            },
            Message::Search(SearchMessage::Append(c)) => {
                let n = c as u32;
                if n == 8 {
                    if self.query.len() > 0 {
                        let ghost q = self.query@;
                        let mut query = self.query.clone();
                        assert(query@ =~= q);
                        query.pop();
                        assert(query@ =~= q.drop_last());
                        self.query = query;
                    }
                } else if 0x20 <= n && n <= 0x7e {
                    let mut query = self.query.clone();
                    assert(query@ =~= old(self)@.query);
                    query.push(c);
                    self.query = query;
                }
                None
            },
            Message::Launch => self.launch(),
        }
    }
}

} // verus!
